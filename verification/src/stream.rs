use vstd::prelude::*;

use multipeek::MultiPeek;
use std::vec::IntoIter;

use crate::lexer::Token;

verus! {

/// `multipeek::MultiPeek`, an iterator adapter that can look any number of items ahead; its
/// contents are known only through `char_stream` and `token_stream`.
#[verifier::external_type_specification]
#[verifier::external_body]
#[verifier::reject_recursive_types(I)]
pub struct ExMultiPeek<I: Iterator>(MultiPeek<I>);

/// The characters that a character stream has still to yield.
pub uninterp spec fn char_stream(m: MultiPeek<IntoIter<char>>) -> Seq<char>;

/// `multipeek::multipeek` over the characters of `v`: the stream yields them in order.
#[verifier::external_body]
pub(crate) fn multipeek_chars(v: Vec<char>) -> (r: MultiPeek<IntoIter<char>>)
    ensures
        char_stream(r) == v@,
{
    multipeek::multipeek(v)
}

/// `MultiPeek::peek_nth`: the character `n` places ahead, if there is one; the stream still
/// yields the same characters.
#[verifier::external_body]
pub(crate) fn peek_nth_char(m: &mut MultiPeek<IntoIter<char>>, n: usize) -> (r: Option<char>)
    ensures
        char_stream(*final(m)) == char_stream(*old(m)),
        r == (if n < char_stream(*old(m)).len() {
            Some(char_stream(*old(m))[n as int])
        } else {
            None
        }),
{
    m.peek_nth(n).copied()
}


/// `MultiPeek::peek`: the next character, if there is one; the stream still yields the same
/// characters.
#[verifier::external_body]
pub(crate) fn peek_char(m: &mut MultiPeek<IntoIter<char>>) -> (r: Option<char>)
    ensures
        char_stream(*final(m)) == char_stream(*old(m)),
        r == (if char_stream(*old(m)).len() > 0 {
            Some(char_stream(*old(m))[0])
        } else {
            None
        }),
{
    m.peek().copied()
}

/// `MultiPeek::next`: the next character, which the stream then no longer yields; at the end,
/// nothing, and the stream stays empty.
#[verifier::external_body]
pub(crate) fn next_char(m: &mut MultiPeek<IntoIter<char>>) -> (r: Option<char>)
    ensures
        char_stream(*old(m)).len() > 0 ==> r == Some(char_stream(*old(m))[0]) && char_stream(
            *final(m),
        ) == char_stream(*old(m)).skip(1),
        char_stream(*old(m)).len() == 0 ==> r is None && char_stream(*final(m)) == char_stream(
            *old(m),
        ),
{
    m.next()
}

/// `Clone::clone` of a `MultiPeek`: an independent stream that yields the same characters.
#[verifier::external_body]
pub(crate) fn clone_chars(m: &MultiPeek<IntoIter<char>>) -> (r: MultiPeek<IntoIter<char>>)
    ensures
        char_stream(r) == char_stream(*m),
{
    m.clone()
}


/// The tokens that a token stream has still to yield.
pub uninterp spec fn token_stream(m: MultiPeek<IntoIter<Token>>) -> Seq<Token>;

/// `multipeek::multipeek` over the tokens of `v`: the stream yields them in order.
#[verifier::external_body]
pub(crate) fn multipeek_tokens(v: Vec<Token>) -> (r: MultiPeek<IntoIter<Token>>)
    ensures
        token_stream(r) == v@,
{
    multipeek::multipeek(v)
}

/// `MultiPeek::peek`: the next token, if there is one; the stream still yields the same tokens.
#[verifier::external_body]
pub(crate) fn peek_token<'a>(m: &'a mut MultiPeek<IntoIter<Token>>) -> (r: Option<&'a Token>)
    ensures
        token_stream(*final(m)) == token_stream(*old(m)),
        token_stream(*old(m)).len() > 0 ==> r == Some(&token_stream(*old(m))[0]),
        token_stream(*old(m)).len() == 0 ==> r is None,
{
    m.peek()
}

/// `MultiPeek::next`: the next token, which the stream then no longer yields; at the end,
/// nothing, and the stream stays empty.
#[verifier::external_body]
pub(crate) fn next_token(m: &mut MultiPeek<IntoIter<Token>>) -> (r: Option<Token>)
    ensures
        token_stream(*old(m)).len() > 0 ==> r == Some(token_stream(*old(m))[0]) && token_stream(
            *final(m),
        ) == token_stream(*old(m)).skip(1),
        token_stream(*old(m)).len() == 0 ==> r is None && token_stream(*final(m)) == token_stream(
            *old(m),
        ),
{
    m.next()
}

} // verus!
