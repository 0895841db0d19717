//! What lexing and rendering guarantee of each other.
use vstd::prelude::*;

use crate::chars::{is_numeric, is_space};
use crate::minify::{is_terminator, render, stop_index, token_text};
use crate::tokens::{
    ends_number, leading_spaces, lex, number_tail_len, scan, string_body_len, token_at, TokenView,
};

verus! {

/// A token that the lexer reads back from its own text: a string payload
/// that is not empty and that, after its first character, only the quote
/// rendered after it closes; a number payload that starts as a number does
/// and holds no character that ends one; any token but `EndOfFile` and
/// `Error`.
pub open spec fn rereadable(t: TokenView) -> bool {
    match t {
        TokenView::String(p) => p.len() > 0 && string_body_len(p.drop_first().push('"'), false)
            == p.len() - 1,
        TokenView::Number(p) => p.len() > 0 && (is_numeric(p[0]) || p[0] == '-') && forall|i: int|
            0 <= i < p.len() ==> !ends_number(#[trigger] p[i]),
        TokenView::EndOfFile => false,
        TokenView::Error => false,
        _ => true,
    }
}

/// A token whose text ends a number written right before it.
pub open spec fn closes_number(t: TokenView) -> bool {
    t is Comma || t is ObjectEnd || t is ArrayEnd
}

/// A token sequence that renders to a document the lexer reads back:
/// every token is rereadable, and each number is last or followed by a
/// comma or a closing bracket.
pub open spec fn minified_form(ts: Seq<TokenView>) -> bool {
    &&& forall|i: int| 0 <= i < ts.len() ==> rereadable(#[trigger] ts[i])
    &&& forall|i: int|
        0 <= i < ts.len() - 1 && (#[trigger] ts[i]) is Number ==> closes_number(ts[i + 1])
}

/// Whether every character of `s` is whitespace.
pub open spec fn all_space(s: Seq<char>) -> bool {
    forall|i: int| 0 <= i < s.len() ==> is_space(#[trigger] s[i])
}

/// The texts of `ts`, each preceded by the gap of the same index.
pub open spec fn spaced(ts: Seq<TokenView>, gaps: Seq<Seq<char>>) -> Seq<char>
    decreases ts.len(),
{
    if ts.len() == 0 || gaps.len() == 0 {
        seq![]
    } else {
        gaps[0] + token_text(ts[0]) + spaced(ts.drop_first(), gaps.drop_first())
    }
}

proof fn lemma_leading_spaces_concat(a: Seq<char>, b: Seq<char>)
    requires
        all_space(a),
        b.len() == 0 || !is_space(b[0]),
    ensures
        leading_spaces(a + b) == a.len(),
    decreases a.len(),
{
    if a.len() == 0 {
        assert(a + b =~= b);
    } else {
        assert((a + b).drop_first() =~= a.drop_first() + b);
        assert(all_space(a.drop_first()));
        lemma_leading_spaces_concat(a.drop_first(), b);
    }
}

proof fn lemma_number_tail_concat(a: Seq<char>, b: Seq<char>)
    requires
        forall|i: int| 0 <= i < a.len() ==> !ends_number(#[trigger] a[i]),
    ensures
        number_tail_len(a + b) == a.len() + number_tail_len(b),
    decreases a.len(),
{
    if a.len() == 0 {
        assert(a + b =~= b);
    } else {
        assert((a + b).drop_first() =~= a.drop_first() + b);
        assert(!ends_number(a[0]));
        assert forall|i: int| 0 <= i < a.drop_first().len() implies !ends_number(
            #[trigger] a.drop_first()[i],
        ) by {
            assert(a.drop_first()[i] == a[i + 1]);
        }
        lemma_number_tail_concat(a.drop_first(), b);
    }
}

proof fn lemma_string_body_concat(a: Seq<char>, b: Seq<char>, escaped: bool)
    requires
        string_body_len(a, escaped) < a.len(),
    ensures
        string_body_len(a + b, escaped) == string_body_len(a, escaped),
    decreases a.len(),
{
    assert((a + b)[0] == a[0]);
    if !(a[0] == '"' && !escaped) {
        let next_escaped = if a[0] == '\\' {
            true
        } else if a[0] == '"' {
            false
        } else {
            escaped
        };
        assert((a + b).drop_first() =~= a.drop_first() + b);
        lemma_string_body_concat(a.drop_first(), b, next_escaped);
    }
}

/// The text of a rereadable token begins with a character that is not
/// whitespace.
proof fn lemma_text_starts_solid(t: TokenView)
    requires
        rereadable(t),
    ensures
        token_text(t).len() > 0,
        !is_space(token_text(t)[0]),
{
    if let TokenView::Number(p) = t {
        assert(!ends_number(p[0]));
    }
}

/// The lexer reads a rereadable token back from its text, whatever follows
/// it, so long as a number is followed by nothing or by a character that
/// ends it.
proof fn lemma_token_at_text(t: TokenView, rest: Seq<char>)
    requires
        rereadable(t),
        t is Number ==> rest.len() == 0 || ends_number(rest[0]),
    ensures
        token_at(token_text(t) + rest) == (t, token_text(t).len()),
{
    let s = token_text(t) + rest;
    match t {
        TokenView::String(p) => {
            let body = p.drop_first().push('"');
            assert(s.skip(2) =~= body + rest);
            lemma_string_body_concat(body, rest, false);
            assert(s.subrange(1, p.len() + 1 as int) =~= p);
        },
        TokenView::Number(p) => {
            assert(s.drop_first() =~= p.drop_first() + rest);
            assert forall|i: int| 0 <= i < p.drop_first().len() implies !ends_number(
                #[trigger] p.drop_first()[i],
            ) by {
                assert(p.drop_first()[i] == p[i + 1]);
            }
            lemma_number_tail_concat(p.drop_first(), rest);
            assert(s.take(p.len() as int) =~= p);
            assert(!ends_number(p[0]));
        },
        TokenView::Null => {
            assert(s.drop_first().take(3) =~= seq!['u', 'l', 'l']);
        },
        TokenView::True => {
            assert(s.drop_first().take(3) =~= seq!['r', 'u', 'e']);
        },
        TokenView::False => {
            assert(s.drop_first().take(4) =~= seq!['a', 'l', 's', 'e']);
        },
        _ => {},
    }
}

/// Whitespace before tokens changes nothing: the texts of a token sequence
/// in minified form, each preceded by any run of whitespace, lex back to
/// that sequence, and render as the sequence does.
pub proof fn lemma_whitespace_placement(ts: Seq<TokenView>, gaps: Seq<Seq<char>>)
    requires
        minified_form(ts),
        gaps.len() == ts.len(),
        forall|i: int| 0 <= i < gaps.len() ==> all_space(#[trigger] gaps[i]),
    ensures
        lex(spaced(ts, gaps)) == ts,
        render(lex(spaced(ts, gaps))) == render(ts),
    decreases ts.len(),
{
    if ts.len() > 0 {
        let t = ts[0];
        let gap = gaps[0];
        let rest = spaced(ts.drop_first(), gaps.drop_first());
        let s = spaced(ts, gaps);
        assert(s == gap + token_text(t) + rest);
        assert(rereadable(ts[0]));
        lemma_text_starts_solid(t);
        assert(all_space(gaps[0]));
        lemma_leading_spaces_concat(gap, token_text(t) + rest);
        assert(gap + token_text(t) + rest =~= gap + (token_text(t) + rest));
        assert(s.skip(gap.len() as int) =~= token_text(t) + rest);
        if ts.len() > 1 {
            let t1 = ts[1];
            let g1 = gaps[1];
            assert(rereadable(ts[1]));
            lemma_text_starts_solid(t1);
            assert(ts.drop_first()[0] == t1 && gaps.drop_first()[0] == g1);
            assert(rest == g1 + token_text(t1) + spaced(
                ts.drop_first().drop_first(),
                gaps.drop_first().drop_first(),
            ));
            if g1.len() > 0 {
                assert(all_space(gaps[1]));
                assert(rest[0] == g1[0]);
            } else {
                assert(rest[0] == token_text(t1)[0]);
            }
        }
        lemma_token_at_text(t, rest);
        let n = token_text(t).len();
        assert(scan(s) == (t, gap.len() + n));
        assert(s.skip(gap.len() + n as int) =~= rest);
        assert(minified_form(ts.drop_first())) by {
            assert forall|i: int| 0 <= i < ts.drop_first().len() implies rereadable(
                #[trigger] ts.drop_first()[i],
            ) by {
                assert(ts.drop_first()[i] == ts[i + 1]);
            }
            assert forall|i: int|
                0 <= i < ts.drop_first().len() - 1 && (
                #[trigger] ts.drop_first()[i]) is Number implies closes_number(
                ts.drop_first()[i + 1],
            ) by {
                assert(ts.drop_first()[i] == ts[i + 1]);
            }
        }
        assert forall|i: int| 0 <= i < gaps.drop_first().len() implies all_space(
            #[trigger] gaps.drop_first()[i],
        ) by {
            assert(gaps.drop_first()[i] == gaps[i + 1]);
        }
        lemma_whitespace_placement(ts.drop_first(), gaps.drop_first());
        assert(lex(s) == seq![t] + lex(rest));
        assert(lex(s) =~= ts);
    } else {
        assert(lex(spaced(ts, gaps)) =~= ts);
    }
}

proof fn lemma_render_is_unspaced(ts: Seq<TokenView>)
    requires
        minified_form(ts),
    ensures
        render(ts) == spaced(ts, Seq::new(ts.len(), |i: int| Seq::<char>::empty())),
    decreases ts.len(),
{
    let gaps = Seq::new(ts.len(), |i: int| Seq::<char>::empty());
    if ts.len() > 0 {
        assert(rereadable(ts[0]));
        assert(minified_form(ts.drop_first())) by {
            assert forall|i: int| 0 <= i < ts.drop_first().len() implies rereadable(
                #[trigger] ts.drop_first()[i],
            ) by {
                assert(ts.drop_first()[i] == ts[i + 1]);
            }
            assert forall|i: int|
                0 <= i < ts.drop_first().len() - 1 && (
                #[trigger] ts.drop_first()[i]) is Number implies closes_number(
                ts.drop_first()[i + 1],
            ) by {
                assert(ts.drop_first()[i] == ts[i + 1]);
            }
        }
        lemma_render_is_unspaced(ts.drop_first());
        assert(gaps.drop_first() =~= Seq::new(
            ts.drop_first().len(),
            |i: int| Seq::<char>::empty(),
        ));
        assert(gaps[0] + token_text(ts[0]) =~= token_text(ts[0]));
    }
}

/// A minified document reads back unchanged: the rendering of a token
/// sequence in minified form lexes to that sequence, payloads and escapes
/// included character for character, and so renders to itself again.
pub proof fn lemma_minified_round_trip(ts: Seq<TokenView>)
    requires
        minified_form(ts),
    ensures
        lex(render(ts)) == ts,
        render(lex(render(ts))) == render(ts),
{
    let gaps = Seq::new(ts.len(), |i: int| Seq::<char>::empty());
    lemma_render_is_unspaced(ts);
    lemma_whitespace_placement(ts, gaps);
}

proof fn lemma_render_stops(ts: Seq<TokenView>)
    ensures
        stop_index(ts) <= ts.len(),
        render(ts) == render(ts.take(stop_index(ts) as int)),
    decreases ts.len(),
{
    if ts.len() > 0 && !is_terminator(ts[0]) {
        let rest = ts.drop_first();
        lemma_render_stops(rest);
        let k = stop_index(ts) as int;
        let prefix = ts.take(k);
        assert(prefix.len() > 0 && prefix[0] == ts[0]);
        assert(prefix.drop_first() =~= rest.take(k - 1));
    } else {
        assert(ts.take(0) =~= Seq::<TokenView>::empty());
    }
}

/// Minifying is idempotent: where the tokens of a document before its
/// first `EndOfFile` or `Error` are in minified form, minifying the
/// minified text gives that text again.
pub proof fn lemma_minify_idempotent(d: Seq<char>)
    requires
        minified_form(lex(d).take(stop_index(lex(d)) as int)),
    ensures
        render(lex(render(lex(d)))) == render(lex(d)),
{
    let ts = lex(d);
    lemma_render_stops(ts);
    lemma_minified_round_trip(ts.take(stop_index(ts) as int));
}

/// Input made of whitespace alone lexes to a single `EndOfFile` (to nothing
/// when it is empty) and renders to the empty text.
pub proof fn lemma_whitespace_only(s: Seq<char>)
    requires
        all_space(s),
    ensures
        s.len() > 0 ==> lex(s) == seq![TokenView::EndOfFile],
        s.len() == 0 ==> lex(s) == Seq::<TokenView>::empty(),
        render(lex(s)) == Seq::<char>::empty(),
{
    if s.len() > 0 {
        lemma_leading_spaces_concat(s, seq![]);
        assert(s + seq![] =~= s);
        assert(s.skip(s.len() as int) =~= seq![]);
        assert(scan(s) == (TokenView::EndOfFile, s.len()));
        let e = s.skip(s.len() as int);
        assert(lex(e) == Seq::<TokenView>::empty());
        assert(lex(s) =~= seq![TokenView::EndOfFile]);
    }
}

/// A number is passed through uninterpreted: a run of characters that
/// starts as a number does and holds no character that ends one lexes to a
/// single `Number` token carrying exactly that run, and renders to it.
pub proof fn lemma_number_verbatim(p: Seq<char>)
    requires
        p.len() > 0,
        is_numeric(p[0]) || p[0] == '-',
        forall|i: int| 0 <= i < p.len() ==> !ends_number(#[trigger] p[i]),
    ensures
        lex(p) == seq![TokenView::Number(p)],
        render(lex(p)) == p,
{
    let ts = seq![TokenView::Number(p)];
    let gaps = seq![Seq::<char>::empty()];
    assert(rereadable(ts[0]));
    lemma_whitespace_placement(ts, gaps);
    assert(ts.drop_first().len() == 0);
    assert(spaced(ts.drop_first(), gaps.drop_first()) == Seq::<char>::empty());
    assert(spaced(ts, gaps) =~= p);
    assert(render(ts.drop_first()) == Seq::<char>::empty());
    assert(render(ts) =~= p);
}

} // verus!
