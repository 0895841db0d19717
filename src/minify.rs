//! The minifier: renders a token sequence as compact text, with no
//! whitespace between tokens.
use vstd::prelude::*;

use crate::chars::push_char;
use crate::tokens::{lex, views, Lexer, Token, TokenView};

verus! {

/// A token that ends rendering.
pub open spec fn is_terminator(t: TokenView) -> bool {
    t is EndOfFile || t is Error
}

/// The text that a token renders to: a string's payload between two quotes,
/// a number's payload as it stands, the literal spelling of the others.
pub open spec fn token_text(t: TokenView) -> Seq<char> {
    match t {
        TokenView::String(p) => seq!['"'] + p + seq!['"'],
        TokenView::Number(p) => p,
        TokenView::Null => seq!['n', 'u', 'l', 'l'],
        TokenView::True => seq!['t', 'r', 'u', 'e'],
        TokenView::False => seq!['f', 'a', 'l', 's', 'e'],
        TokenView::Comma => seq![','],
        TokenView::Colon => seq![':'],
        TokenView::ObjectStart => seq!['{'],
        TokenView::ObjectEnd => seq!['}'],
        TokenView::ArrayStart => seq!['['],
        TokenView::ArrayEnd => seq![']'],
        TokenView::EndOfFile => seq![],
        TokenView::Error => seq![],
    }
}

/// The concatenated texts of the tokens before the first terminator.
pub open spec fn render(ts: Seq<TokenView>) -> Seq<char>
    decreases ts.len(),
{
    if ts.len() == 0 || is_terminator(ts[0]) {
        seq![]
    } else {
        token_text(ts[0]) + render(ts.drop_first())
    }
}

/// The index of the first terminator, or the length if there is none.
pub open spec fn stop_index(ts: Seq<TokenView>) -> nat
    decreases ts.len(),
{
    if ts.len() == 0 || is_terminator(ts[0]) {
        0
    } else {
        1 + stop_index(ts.drop_first())
    }
}

/// Whether rendering stops at an `Error` token.
pub open spec fn halts_on_error(ts: Seq<TokenView>) -> bool {
    stop_index(ts) < ts.len() && ts[stop_index(ts) as int] is Error
}

/// Rendering stopped at an `Error` token.
pub struct RenderError {
    /// What was rendered before the `Error` token.
    pub output: String,
    /// The position of the `Error` token in the sequence.
    pub index: usize,
}

/// The token sequence of one input, ready to render.
#[derive(Debug)]
pub struct Minify {
    minified: Vec<Token>,
}

impl View for Minify {
    type V = Seq<TokenView>;

    closed spec fn view(&self) -> Seq<TokenView> {
        views(self.minified@)
    }
}

proof fn lemma_stop_index_bound(ts: Seq<TokenView>)
    ensures
        stop_index(ts) <= ts.len(),
    decreases ts.len(),
{
    if ts.len() > 0 && !is_terminator(ts[0]) {
        lemma_stop_index_bound(ts.drop_first());
    }
}

impl Minify {
    /// Lexes the whole of `input`.
    pub fn new(input: &str) -> (m: Minify)
        ensures
            m@ == lex(input@),
    {
        let mut lexer = Lexer::new(input);
        let minified = lexer.read_to_end();
        Minify { minified }
    }

    /// Renders the tokens up to the first `EndOfFile` or `Error`. Stopping
    /// at an `Error` is reported with what was rendered before it.
    pub fn render(&self) -> (r: Result<String, RenderError>)
        ensures
            match r {
                Ok(out) => !halts_on_error(self@) && out@ == render(self@),
                Err(e) => halts_on_error(self@) && e.output@ == render(self@) && e.index
                    == stop_index(self@),
            },
    {
        let mut output = String::new();
        let mut i: usize = 0;
        proof {
            assert(self@.skip(0) =~= self@);
        }
        while i < self.minified.len()
            invariant
                i <= self.minified.len(),
                self@.len() == self.minified.len(),
                output@ + render(self@.skip(i as int)) == render(self@),
                stop_index(self@) == i + stop_index(self@.skip(i as int)),
            decreases self.minified.len() - i,
        {
            let ghost rest = self@.skip(i as int);
            assert(rest[0] == self.minified@[i as int]@);
            match &self.minified[i] {
                Token::String(p) => {
                    push_char(&mut output, '"');
                    output.append(p.as_str());
                    push_char(&mut output, '"');
                },
                Token::Number(p) => output.append(p.as_str()),
                Token::Null => {
                    output.append("null");
                    proof {
                        reveal_strlit("null");
                    }
                },
                Token::True => {
                    output.append("true");
                    proof {
                        reveal_strlit("true");
                    }
                },
                Token::False => {
                    output.append("false");
                    proof {
                        reveal_strlit("false");
                    }
                },
                Token::Comma => push_char(&mut output, ','),
                Token::Colon => push_char(&mut output, ':'),
                Token::ObjectStart => push_char(&mut output, '{'),
                Token::ObjectEnd => push_char(&mut output, '}'),
                Token::ArrayStart => push_char(&mut output, '['),
                Token::ArrayEnd => push_char(&mut output, ']'),
                Token::EndOfFile => {
                    assert(output@ =~= render(self@));
                    return Ok(output);
                },
                Token::Error => {
                    assert(output@ =~= render(self@));
                    return Err(RenderError { output, index: i });
                },
            }
            proof {
                assert(rest.drop_first() =~= self@.skip(i + 1));
                assert(output@ + render(self@.skip(i + 1)) =~= render(self@));
            }
            i = i + 1;
        }
        proof {
            lemma_stop_index_bound(self@);
            assert(output@ =~= render(self@));
        }
        Ok(output)
    }

    /// The rendered text, complete or cut short at an `Error` token.
    pub fn to_string(&self) -> (out: String)
        ensures
            out@ == render(self@),
    {
        match self.render() {
            Ok(out) => out,
            Err(e) => e.output,
        }
    }
}

} // verus!
