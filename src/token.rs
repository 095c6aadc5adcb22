//! A tokenized source file, as a tree of tokens.

use vstd::prelude::*;
use crate::literal::unquoted;
use crate::literalset::LitView;
use crate::span::{LineColumn, Span};
use proc_macro2::TokenTree as Tree;
use proc_macro2::Spacing as OuterSpacing;

verus! {

/// Whether a punctuation character is followed directly by another one.
#[derive(Debug, Clone, Copy, PartialEq, Eq, Structural)]
pub enum Spacing {
    Alone,
    Joint,
}

/// A literal token: its text as written, quoting included, and its span.
#[derive(Debug, Clone)]
pub struct LiteralToken {
    pub text: String,
    pub span: Span,
}

/// One node of a token tree.
#[derive(Debug)]
pub enum Token {
    Ident(String),
    Punct(char, Spacing),
    Literal(LiteralToken),
    Group(Vec<Token>),
    Other,
}

/// What a documentation literal contributes to a block.
pub open spec fn literal_view(t: LiteralToken) -> LitView {
    (unquoted(t.text@), t.span)
}

pub open spec fn is_alone_eq(t: Token) -> bool {
    t == Token::Punct('=', Spacing::Alone)
}

/// The documentation literals of `ts` from index `i` on, in source order:
/// each literal that follows `doc` and a standalone `=` on the same level,
/// and those of nested groups. Tokens inspected after `doc` are consumed
/// whether or not they complete the pattern.
pub open spec fn doc_lines(ts: Seq<Token>, i: int) -> Seq<LitView>
    decreases ts, ts.len() - i,
    via doc_lines_decreases
{
    if i < 0 || i >= ts.len() {
        Seq::empty()
    } else {
        match ts[i] {
            Token::Ident(name) => {
                if name@ != seq!['d', 'o', 'c'] {
                    doc_lines(ts, i + 1)
                } else if i + 1 >= ts.len() {
                    Seq::empty()
                } else if !is_alone_eq(ts[i + 1]) {
                    doc_lines(ts, i + 2)
                } else if i + 2 >= ts.len() {
                    Seq::empty()
                } else {
                    match ts[i + 2] {
                        Token::Literal(l) => seq![literal_view(l)] + doc_lines(ts, i + 3),
                        _ => doc_lines(ts, i + 3),
                    }
                }
            },
            Token::Group(inner) => {
                doc_lines(inner@, 0) + doc_lines(ts, i + 1)
            },
            _ => doc_lines(ts, i + 1),
        }
    }
}

/// Tells whether `name` is the identifier `doc`.
pub fn is_doc_name(name: &String) -> (r: bool)
    ensures
        r == (name@ == seq!['d', 'o', 'c']),
{
    let s = name.as_str();
    let r = s.unicode_len() == 3 && s.get_char(0) == 'd' && s.get_char(1) == 'o' && s.get_char(2)
        == 'c';
    assert(r ==> s@ =~= seq!['d', 'o', 'c']);
    r
}

/// Tells whether `t` is an `=` with standalone spacing.
pub fn is_alone_eq_token(t: &Token) -> (r: bool)
    ensures
        r == is_alone_eq(*t),
{
    match t {
        Token::Punct(c, spacing) => *c == '=' && *spacing == Spacing::Alone,
        _ => false,
    }
}

/// proc_macro2's `TokenStream` as an opaque type, read only through
/// `tokens_of_stream`.
#[verifier::external_type_specification]
#[verifier::external_body]
pub struct ExTokenStream(proc_macro2::TokenStream);

/// The token trees of `s`, read into [`Token`]s; they depend on the stream
/// alone.
pub uninterp spec fn stream_tokens(s: proc_macro2::TokenStream) -> Seq<Token>;

/// Relies on proc_macro2's `TokenStream::into_iter` and the accessors of
/// its token trees: reads each tree of `stream`, groups included, into a
/// [`Token`], with the spans that proc_macro2 reports.
#[verifier::external_body]
pub(crate) fn tokens_of_stream(stream: proc_macro2::TokenStream) -> (r: Vec<Token>)
    ensures
        r@ == stream_tokens(stream),
{
    stream.into_iter().map(|tree| match tree {
        Tree::Ident(i) => Token::Ident(i.to_string()),
        Tree::Punct(p) => Token::Punct(p.as_char(), if p.spacing() == OuterSpacing::Alone { Spacing::Alone } else { Spacing::Joint }),
        Tree::Literal(l) => {
            let (a, b) = (l.span().start(), l.span().end());
            let span = Span { start: LineColumn { line: a.line, column: a.column }, end: LineColumn { line: b.line, column: b.column } };
            Token::Literal(LiteralToken { text: l.to_string(), span })
        },
        Tree::Group(g) => Token::Group(tokens_of_stream(g.stream())),
    }).collect()
}

/// `ts` holds an identifier `doc` from index `i` on, here or in a group
/// nested at any depth.
pub open spec fn mentions_doc(ts: Seq<Token>, i: int) -> bool
    decreases ts, ts.len() - i,
    via mentions_doc_decreases
{
    if i < 0 || i >= ts.len() {
        false
    } else {
        match ts[i] {
            Token::Ident(name) => name@ == seq!['d', 'o', 'c'] || mentions_doc(ts, i + 1),
            Token::Group(inner) => mentions_doc(inner@, 0) || mentions_doc(ts, i + 1),
            _ => mentions_doc(ts, i + 1),
        }
    }
}

/// Every literal of `ts` from index `i` on, those of nested groups
/// included, depth first and left to right.
pub open spec fn all_literals(ts: Seq<Token>, i: int) -> Seq<LitView>
    decreases ts, ts.len() - i,
    via all_literals_decreases
{
    if i < 0 || i >= ts.len() {
        Seq::empty()
    } else {
        match ts[i] {
            Token::Literal(l) => seq![literal_view(l)] + all_literals(ts, i + 1),
            Token::Group(inner) => all_literals(inner@, 0) + all_literals(ts, i + 1),
            _ => all_literals(ts, i + 1),
        }
    }
}

#[via_fn]
proof fn all_literals_decreases(ts: Seq<Token>, i: int) {
    broadcast use vstd::seq::group_seq_axioms, vstd::std_specs::vec::group_vec_axioms;

    if 0 <= i < ts.len() {
        if let Token::Group(inner) = ts[i] {
            assert(decreases_to!(ts => inner@));
        }
    }
}

#[via_fn]
proof fn mentions_doc_decreases(ts: Seq<Token>, i: int) {
    broadcast use vstd::seq::group_seq_axioms, vstd::std_specs::vec::group_vec_axioms;

    if 0 <= i < ts.len() {
        if let Token::Group(inner) = ts[i] {
            assert(decreases_to!(ts => inner@));
        }
    }
}

#[via_fn]
proof fn doc_lines_decreases(ts: Seq<Token>, i: int) {
    broadcast use vstd::seq::group_seq_axioms, vstd::std_specs::vec::group_vec_axioms;

    if 0 <= i < ts.len() {
        if let Token::Group(inner) = ts[i] {
            assert(decreases_to!(ts => inner@));
        }
    }
}

} // verus!
