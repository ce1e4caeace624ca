use vstd::prelude::*;
use crate::model::{is_window_context, texts_context_total, texts_count, texts_cover, window_count, MarkovTextModel};
use crate::token::{start_context, tokens_of, Token};

verus! {

/// The empty text tokenizes to `l` opening sentinels followed by one closing
/// sentinel, whatever `l` is.
pub proof fn lemma_empty_text_tokens(l: nat)
    ensures
        tokens_of(l, Seq::<char>::empty()) == start_context(l).push(Token::End),
{
    crate::token::lemma_tokens_of(l, Seq::<char>::empty());
    assert(tokens_of(l, Seq::<char>::empty()) =~= start_context(l).push(Token::End));
}

/// A token stream no longer than the context length has no window: it
/// records no successor and no context.
pub proof fn lemma_short_stream_records_nothing(s: Seq<Token>, l: nat)
    requires
        s.len() <= l,
    ensures
        forall|ctx: Seq<Token>, t: Token| #[trigger] window_count(s, l, ctx, t) == 0,
        forall|ctx: Seq<Token>| !#[trigger] is_window_context(s, l, ctx),
{
}

proof fn lemma_texts_count_concat(l: nat, a: Seq<&str>, b: Seq<&str>, ctx: Seq<Token>, t: Token)
    ensures
        texts_count(l, a + b, ctx, t) == texts_count(l, a, ctx, t) + texts_count(l, b, ctx, t),
    decreases b.len(),
{
    if b.len() == 0 {
        assert(a + b =~= a);
    } else {
        lemma_texts_count_concat(l, a, b.drop_last(), ctx, t);
        assert((a + b).drop_last() =~= a + b.drop_last());
        assert((a + b).last() == b.last());
    }
}

/// Training on the same texts twice records every (context, successor) pair
/// exactly twice as often as training on them once, and the same contexts.
/// So each successor's share of its context's observations is unchanged.
pub proof fn lemma_training_twice_doubles(l: nat, texts: Seq<&str>)
    ensures
        forall|ctx: Seq<Token>, t: Token| #[trigger] texts_count(l, texts + texts, ctx, t)
            == 2 * texts_count(l, texts, ctx, t),
        forall|ctx: Seq<Token>| #[trigger] texts_cover(l, texts + texts, ctx) == texts_cover(l, texts, ctx),
        forall|ctx: Seq<Token>, t: Token, u: Token|
            texts_count(l, texts + texts, ctx, t) * texts_count(l, texts, ctx, u)
                == #[trigger] texts_count(l, texts + texts, ctx, u) * #[trigger] texts_count(l, texts, ctx, t),
{
    assert forall|ctx: Seq<Token>, t: Token| #[trigger] texts_count(l, texts + texts, ctx, t)
        == 2 * texts_count(l, texts, ctx, t) by {
        lemma_texts_count_concat(l, texts, texts, ctx, t);
    }
    assert forall|ctx: Seq<Token>| #[trigger] texts_cover(l, texts + texts, ctx) == texts_cover(l, texts, ctx) by {
        let tt = texts + texts;
        if texts_cover(l, tt, ctx) {
            let k = choose|k: int| 0 <= k < tt.len() && is_window_context(tokens_of(l, #[trigger] tt[k]@), l, ctx);
            let k2 = if k < texts.len() { k } else { k - texts.len() };
            assert(tt[k] == texts[k2]);
        }
        if texts_cover(l, texts, ctx) {
            let k = choose|k: int| 0 <= k < texts.len() && is_window_context(tokens_of(l, #[trigger] texts[k]@), l, ctx);
            assert(tt[k] == texts[k]);
        }
    }
    assert forall|ctx: Seq<Token>, t: Token, u: Token|
        texts_count(l, texts + texts, ctx, t) * texts_count(l, texts, ctx, u)
            == #[trigger] texts_count(l, texts + texts, ctx, u) * #[trigger] texts_count(l, texts, ctx, t) by {
        lemma_texts_count_concat(l, texts, texts, ctx, t);
        lemma_texts_count_concat(l, texts, texts, ctx, u);
        let a = texts_count(l, texts, ctx, t);
        let b = texts_count(l, texts, ctx, u);
        assert((2 * a) * b == (2 * b) * a) by (nonlinear_arith);
    }
}

/// A model trained from empty on `texts` (`once`) and then on `texts` again
/// (`twice`) knows the same contexts, records every count and every
/// context's total twice over, and so keeps every sampling probability
/// `count / total` unchanged.
pub proof fn lemma_retraining_keeps_distribution<const L: usize>(
    fresh: MarkovTextModel<L>,
    once: MarkovTextModel<L>,
    twice: MarkovTextModel<L>,
    texts: Seq<&str>,
)
    requires
        forall|x: Seq<Token>| !#[trigger] fresh.has_context(x),
        forall|x: Seq<Token>, t: Token| #[trigger] fresh.count(x, t) == 0,
        forall|x: Seq<Token>| #[trigger] fresh.context_total(x) == 0,
        forall|x: Seq<Token>| #![trigger once.has_context(x)]
            once.has_context(x) == (fresh.has_context(x) || texts_cover(L as nat, texts, x)),
        forall|x: Seq<Token>, t: Token| #![trigger once.count(x, t)]
            once.count(x, t) == fresh.count(x, t) + texts_count(L as nat, texts, x, t),
        forall|x: Seq<Token>| #![trigger once.context_total(x)]
            once.context_total(x) == fresh.context_total(x) + texts_context_total(L as nat, texts, x),
        forall|x: Seq<Token>| #![trigger twice.has_context(x)]
            twice.has_context(x) == (once.has_context(x) || texts_cover(L as nat, texts, x)),
        forall|x: Seq<Token>, t: Token| #![trigger twice.count(x, t)]
            twice.count(x, t) == once.count(x, t) + texts_count(L as nat, texts, x, t),
        forall|x: Seq<Token>| #![trigger twice.context_total(x)]
            twice.context_total(x) == once.context_total(x) + texts_context_total(L as nat, texts, x),
    ensures
        forall|x: Seq<Token>| #[trigger] twice.has_context(x) == once.has_context(x),
        forall|x: Seq<Token>, t: Token| #[trigger] twice.count(x, t) == 2 * once.count(x, t),
        forall|x: Seq<Token>| #[trigger] twice.context_total(x) == 2 * once.context_total(x),
        forall|x: Seq<Token>, t: Token|
            #[trigger] twice.count(x, t) * once.context_total(x) == #[trigger] once.count(x, t)
                * twice.context_total(x),
{
    assert forall|x: Seq<Token>, t: Token|
        #[trigger] twice.count(x, t) * once.context_total(x) == #[trigger] once.count(x, t)
            * twice.context_total(x) by {
        assert(fresh.count(x, t) == 0);
        assert(fresh.context_total(x) == 0);
        let a = once.count(x, t);
        let b = once.context_total(x);
        assert(twice.count(x, t) == 2 * a);
        assert(twice.context_total(x) == 2 * b);
        assert((2 * a) * b == a * (2 * b)) by (nonlinear_arith);
    }
}

} // verus!
