use vstd::prelude::*;

verus! {

/// One unit of a tokenized text: a sentinel that opens it, one character of
/// it, or a sentinel that closes it.
#[derive(Clone, Copy, Debug, PartialEq, Eq, Hash, Structural)]
pub enum Token {
    Start,
    Text(char),
    End,
}

/// The context that generation starts from: `l` opening sentinels.
pub open spec fn start_context(l: nat) -> Seq<Token> {
    Seq::new(l, |i: int| Token::Start)
}

/// The context that follows `ctx` once `t` has been produced: the oldest token
/// drops out and `t` takes the last place.
pub open spec fn shift(ctx: Seq<Token>, t: Token) -> Seq<Token> {
    ctx.drop_first().push(t)
}

/// The token that carries the character `c`.
pub open spec fn text_token(c: char) -> Token {
    Token::Text(c)
}

/// One `Text` token per character of `text`, in order.
pub open spec fn text_tokens(text: Seq<char>) -> Seq<Token>
    decreases text.len(),
{
    if text.len() == 0 {
        Seq::empty()
    } else {
        text_tokens(text.drop_last()).push(text_token(text.last()))
    }
}

/// The token stream of `text` under a context length `l`: `l` opening
/// sentinels, one `Text` token per character, and one closing sentinel.
pub open spec fn tokens_of(l: nat, text: Seq<char>) -> Seq<Token> {
    start_context(l) + text_tokens(text) + seq![Token::End]
}

proof fn lemma_text_tokens(text: Seq<char>)
    ensures
        text_tokens(text).len() == text.len(),
        forall|i: int| 0 <= i < text.len() ==> #[trigger] text_tokens(text)[i] == text_token(text[i]),
    decreases text.len(),
{
    if text.len() > 0 {
        lemma_text_tokens(text.drop_last());
    }
}

/// The shape of a token stream, element by element.
pub proof fn lemma_tokens_of(l: nat, text: Seq<char>)
    ensures
        tokens_of(l, text).len() == l + text.len() + 1,
        forall|i: int| 0 <= i < l ==> #[trigger] tokens_of(l, text)[i] == Token::Start,
        forall|i: int|
            l <= i < l + text.len() ==> #[trigger] tokens_of(l, text)[i] == text_token(text[i - l]),
        tokens_of(l, text)[(l + text.len()) as int] == Token::End,
{
    lemma_text_tokens(text);
    let head = start_context(l);
    let body = text_tokens(text);
    assert forall|i: int| 0 <= i < l implies #[trigger] tokens_of(l, text)[i] == Token::Start by {
        assert((head + body)[i] == head[i]);
    }
    assert forall|i: int| l <= i < l + text.len() implies #[trigger] tokens_of(l, text)[i] == text_token(text[i - l]) by {
        assert((head + body)[i] == body[i - l]);
    }
}

} // verus!
