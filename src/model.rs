use vstd::prelude::*;
use vstd::string::*;
use crate::sampler::{pick, TokenSampler};
use crate::token::{shift, start_context, tokens_of, Token};

verus! {

/// How many windows of width `l + 1` in `s` have `ctx` as their first `l`
/// tokens and `t` as their last.
pub open spec fn window_count(s: Seq<Token>, l: nat, ctx: Seq<Token>, t: Token) -> nat
    decreases s.len(),
{
    if s.len() <= l {
        0
    } else {
        window_count(s.drop_last(), l, ctx, t) + one_if(s.subrange(s.len() - 1 - l, s.len() - 1) == ctx && s.last() == t)
    }
}

/// How many windows of width `l + 1` in `s` have `ctx` as their first `l`
/// tokens, whatever their last.
pub open spec fn window_context_count(s: Seq<Token>, l: nat, ctx: Seq<Token>) -> nat
    decreases s.len(),
{
    if s.len() <= l {
        0
    } else {
        window_context_count(s.drop_last(), l, ctx) + one_if(s.subrange(s.len() - 1 - l, s.len() - 1) == ctx)
    }
}

/// A stream shaped as tokenization makes them: no `Start` past the first `l`
/// tokens, and, when it has a window at all, `End` as its last token.
pub open spec fn sentinel_shaped(s: Seq<Token>, l: nat) -> bool {
    &&& forall|k: int| l <= k < s.len() ==> s[k] != Token::Start
    &&& s.len() > l ==> s.last() == Token::End
}

/// Whether some window of width `l + 1` in `s` has `ctx` as its first `l` tokens.
pub open spec fn is_window_context(s: Seq<Token>, l: nat, ctx: Seq<Token>) -> bool {
    exists|i: int| 0 <= i && i + l < s.len() && #[trigger] s.subrange(i, i + l) == ctx
}

proof fn lemma_texts_size_prefix(texts: Seq<&str>, n: int)
    requires
        0 <= n <= texts.len(),
    ensures
        texts_size(texts.subrange(0, n)) <= texts_size(texts),
        n > 0 ==> texts_size(texts.subrange(0, n)) == texts_size(texts.subrange(0, n - 1)) + texts[n - 1]@.len() + 1,
    decreases texts.len() - n,
{
    if n > 0 {
        assert(texts.subrange(0, n).drop_last() =~= texts.subrange(0, n - 1));
    }
    if n < texts.len() {
        lemma_texts_size_prefix(texts, n + 1);
    } else {
        assert(texts.subrange(0, n) =~= texts);
    }
}

/// One if `b` holds, else zero.
pub open spec fn one_if(b: bool) -> nat {
    if b {
        1
    } else {
        0
    }
}

/// The number of windows of width `l + 1` in `s`.
pub open spec fn window_total(s: Seq<Token>, l: nat) -> nat {
    if s.len() > l {
        (s.len() - l) as nat
    } else {
        0
    }
}

/// The number of windows that training on each of `texts` records: one
/// per character and one for the closing sentinel.
pub open spec fn texts_size(texts: Seq<&str>) -> nat
    decreases texts.len(),
{
    if texts.len() == 0 {
        0
    } else {
        texts_size(texts.drop_last()) + texts.last()@.len() + 1
    }
}

/// How many times training on each of `texts`, with context length `l`,
/// records `t` as a successor of `ctx`.
pub open spec fn texts_count(l: nat, texts: Seq<&str>, ctx: Seq<Token>, t: Token) -> nat
    decreases texts.len(),
{
    if texts.len() == 0 {
        0
    } else {
        texts_count(l, texts.drop_last(), ctx, t) + window_count(tokens_of(l, texts.last()@), l, ctx, t)
    }
}

/// How many observations training on each of `texts`, with context length
/// `l`, records for `ctx`.
pub open spec fn texts_context_total(l: nat, texts: Seq<&str>, ctx: Seq<Token>) -> nat
    decreases texts.len(),
{
    if texts.len() == 0 {
        0
    } else {
        texts_context_total(l, texts.drop_last(), ctx) + window_context_count(tokens_of(l, texts.last()@), l, ctx)
    }
}

/// Whether training on one of `texts`, with context length `l`, records
/// `ctx` as a context.
pub open spec fn texts_cover(l: nat, texts: Seq<&str>, ctx: Seq<Token>) -> bool {
    exists|k: int| 0 <= k < texts.len() && is_window_context(tokens_of(l, #[trigger] texts[k]@), l, ctx)
}

/// A text being generated: the current context, the characters produced so
/// far, and whether the closing sentinel has been drawn.
pub struct Generation {
    context: Vec<Token>,
    text: String,
    finished: bool,
}

impl Generation {
    /// The last `CONTEXT_LENGTH` tokens, which the next draw depends on.
    pub closed spec fn context(&self) -> Seq<Token> {
        self.context@
    }

    /// The characters drawn so far.
    pub closed spec fn produced(&self) -> Seq<char> {
        self.text@
    }

    /// Whether the closing sentinel has been drawn.
    pub closed spec fn is_finished(&self) -> bool {
        self.finished
    }

    /// Whether the closing sentinel has been drawn.
    pub fn finished(&self) -> (r: bool)
        ensures
            r == self.is_finished(),
    {
        self.finished
    }

    /// The characters produced so far.
    pub fn into_text(self) -> (r: String)
        ensures
            r@ == self.produced(),
    {
        self.text
    }
}

/// `after` is `before` once the token `t` has been drawn: a character is
/// appended and shifted into the context; the closing sentinel ends the text.
pub open spec fn step_result(before: Generation, t: Token, after: Generation) -> bool {
    match t {
        Token::Text(c) => {
            &&& !after.is_finished()
            &&& after.produced() == before.produced().push(c)
            &&& after.context() == shift(before.context(), t)
        },
        Token::End => {
            &&& after.is_finished()
            &&& after.produced() == before.produced()
            &&& after.context() == before.context()
        },
        Token::Start => false,
    }
}

/// Relies on `String::push`: appends one character.
#[verifier::external_body]
fn push_char(s: &mut String, c: char)
    ensures
        final(s)@ == old(s)@.push(c),
{
    s.push(c)
}

/// The context that follows `ctx` once `t` has been produced.
fn shifted(ctx: &Vec<Token>, t: Token) -> (r: Vec<Token>)
    requires
        ctx@.len() > 0,
    ensures
        r@ == shift(ctx@, t),
{
    let mut r: Vec<Token> = Vec::new();
    let mut k: usize = 1;
    while k < ctx.len()
        invariant
            1 <= k <= ctx@.len(),
            r@ == ctx@.subrange(1, k as int),
        decreases ctx@.len() - k,
    {
        r.push(ctx[k]);
        k = k + 1;
        assert(r@ =~= ctx@.subrange(1, k as int));
    }
    r.push(t);
    assert(r@ =~= shift(ctx@, t));
    r
}

/// One row of the table: a context and what followed it.
struct ContextEntry {
    context: Vec<Token>,
    sampler: TokenSampler,
}

/// A Markov text model whose contexts are `CONTEXT_LENGTH` tokens long.
pub struct MarkovTextModel<const CONTEXT_LENGTH: usize> {
    table: Vec<ContextEntry>,
    observations: usize,
}

impl<const CONTEXT_LENGTH: usize> MarkovTextModel<CONTEXT_LENGTH> {
    /// Whether `ctx` has been observed in training.
    pub closed spec fn has_context(&self, ctx: Seq<Token>) -> bool {
        exists|i: int| 0 <= i < self.table@.len() && #[trigger] self.table@[i].context@ == ctx
    }

    /// The distribution recorded for an observed context.
    pub closed spec fn sampler_of(&self, ctx: Seq<Token>) -> TokenSampler {
        self.table@[choose|i: int| 0 <= i < self.table@.len() && #[trigger] self.table@[i].context@ == ctx].sampler
    }

    /// How many times `t` followed `ctx` in training.
    pub closed spec fn count(&self, ctx: Seq<Token>, t: Token) -> nat {
        if self.has_context(ctx) {
            self.sampler_of(ctx).count(t)
        } else {
            0
        }
    }

    /// How many observations were recorded for `ctx` in all.
    pub closed spec fn context_total(&self, ctx: Seq<Token>) -> nat {
        if self.has_context(ctx) {
            self.sampler_of(ctx).total()
        } else {
            0
        }
    }

    /// How many (context, successor) pairs training has recorded in all.
    pub closed spec fn observed(&self) -> nat {
        self.observations as nat
    }

    /// The table's own invariant, kept by training on any token stream:
    /// contexts are unique and `CONTEXT_LENGTH` long, and each one's
    /// distribution is well formed, not empty, and holds no more than all
    /// observations.
    pub closed spec fn table_wf(&self) -> bool {
        &&& CONTEXT_LENGTH > 0
        &&& forall|i: int, j: int|
            0 <= i < j < self.table@.len() ==> self.table@[i].context@ != self.table@[j].context@
        &&& forall|i: int| 0 <= i < self.table@.len() ==> {
            &&& (#[trigger] self.table@[i]).context@.len() == CONTEXT_LENGTH
            &&& self.table@[i].sampler.wf()
            &&& self.table@[i].sampler.total() > 0
            &&& self.table@[i].sampler.total() <= self.observations
        }
    }

    /// `Start` never follows a context.
    pub open spec fn no_start_successor(&self) -> bool {
        forall|ctx: Seq<Token>| #[trigger] self.count(ctx, Token::Start) == 0
    }

    /// Every context that a recorded successor leads to is itself recorded.
    pub open spec fn closed_under_successors(&self) -> bool {
        forall|ctx: Seq<Token>, t: Token|
            #![trigger self.count(ctx, t)]
            self.count(ctx, t) > 0 && t is Text ==> self.has_context(shift(ctx, t))
    }

    /// The model's invariant, kept by every training call on a text: the
    /// table is well formed, and generation from a known context only ever
    /// draws a character or `End` and only reaches known contexts.
    pub open spec fn wf(&self) -> bool {
        self.table_wf() && self.no_start_successor() && self.closed_under_successors()
    }

    proof fn lemma_sampler_at(&self, i: int)
        requires
            self.table_wf(),
            0 <= i < self.table@.len(),
        ensures
            self.has_context(self.table@[i].context@),
            self.sampler_of(self.table@[i].context@) == self.table@[i].sampler,
            forall|t: Token| #[trigger] self.count(self.table@[i].context@, t) == self.table@[i].sampler.count(t),
    {
        let ctx = self.table@[i].context@;
        assert(self.has_context(ctx));
        let j = choose|j: int| 0 <= j < self.table@.len() && #[trigger] self.table@[j].context@ == ctx;
        assert(i == j);
    }

    /// Facts that hold of every observed context of a well-formed model.
    pub proof fn lemma_context_facts(&self, ctx: Seq<Token>)
        requires
            self.table_wf(),
            self.has_context(ctx),
        ensures
            ctx.len() == CONTEXT_LENGTH,
            self.sampler_of(ctx).wf(),
            0 < self.sampler_of(ctx).total() <= self.observed(),
            self.context_total(ctx) == self.sampler_of(ctx).total(),
            forall|t: Token| #[trigger] self.count(ctx, t) == self.sampler_of(ctx).count(t),
    {
        let i = choose|i: int| 0 <= i < self.table@.len() && #[trigger] self.table@[i].context@ == ctx;
        self.lemma_sampler_at(i);
    }

    /// Creates an empty model.
    pub fn new() -> (r: Self)
        requires
            CONTEXT_LENGTH > 0,
        ensures
            r.wf(),
            r.observed() == 0,
            forall|ctx: Seq<Token>| !r.has_context(ctx),
            forall|ctx: Seq<Token>, t: Token| r.count(ctx, t) == 0,
            forall|ctx: Seq<Token>| r.context_total(ctx) == 0,
    {
        MarkovTextModel { table: Vec::new(), observations: 0 }
    }

    /// The number of (context, successor) pairs recorded so far.
    pub fn observation_count(&self) -> (r: usize)
        ensures
            r == self.observed(),
    {
        self.observations
    }

    /// Splits `text` into its token stream: `CONTEXT_LENGTH` opening
    /// sentinels, one token per character, and a closing sentinel.
    pub fn tokenize(&self, text: &str) -> (r: Vec<Token>)
        ensures
            r@ == tokens_of(CONTEXT_LENGTH as nat, text@),
    {
        let mut tokens = Self::start_tokens();
        let n = text.unicode_len();
        let mut k: usize = 0;
        while k < n
            invariant
                n == text@.len(),
                k <= n,
                tokens@.len() == CONTEXT_LENGTH + k,
                forall|j: int| 0 <= j < CONTEXT_LENGTH ==> tokens@[j] == Token::Start,
                forall|j: int| 0 <= j < k ==> tokens@[CONTEXT_LENGTH + j] == crate::token::text_token(text@[j]),
            decreases n - k,
        {
            let c = text.get_char(k);
            tokens.push(Token::Text(c));
            k = k + 1;
        }
        tokens.push(Token::End);
        proof {
            crate::token::lemma_tokens_of(CONTEXT_LENGTH as nat, text@);
        }
        assert(tokens@ =~= tokens_of(CONTEXT_LENGTH as nat, text@));
        tokens
    }

    /// In a well-formed model, what followed an observed context is a
    /// character or the closing sentinel, never `Start`; and after a
    /// character the context that follows was observed too. So generation
    /// from an observed context never meets an unknown one.
    pub proof fn lemma_successors_known(&self, ctx: Seq<Token>, t: Token)
        requires
            self.wf(),
            self.has_context(ctx),
            self.count(ctx, t) > 0,
        ensures
            ctx.len() == CONTEXT_LENGTH,
            t != Token::Start,
            t is Text ==> self.has_context(shift(ctx, t)),
    {
        self.lemma_context_facts(ctx);
    }

    /// How many times `t` followed `context` in training.
    pub fn successor_count(&self, context: &Vec<Token>, t: Token) -> (r: usize)
        requires
            self.table_wf(),
        ensures
            r == self.count(context@, t),
    {
        match self.find(context) {
            Some(i) => {
                proof {
                    self.lemma_sampler_at(i as int);
                }
                self.table[i].sampler.occurrences(t)
            },
            None => 0,
        }
    }

    /// The all-`Start` context, where generation begins.
    fn start_tokens() -> (r: Vec<Token>)
        ensures
            r@ == start_context(CONTEXT_LENGTH as nat),
    {
        let mut start: Vec<Token> = Vec::new();
        let mut k: usize = 0;
        while k < CONTEXT_LENGTH
            invariant
                k <= CONTEXT_LENGTH,
                start@ == start_context(k as nat),
            decreases CONTEXT_LENGTH - k,
        {
            start.push(Token::Start);
            k = k + 1;
            assert(start@ =~= start_context(k as nat));
        }
        start
    }

    /// Whether generation can stand on `ctx` after `n` characters: the
    /// all-`Start` context at first, then the shift of a reachable context by
    /// a character recorded after it.
    pub open spec fn reachable(&self, ctx: Seq<Token>, n: nat) -> bool
        decreases n,
    {
        if n == 0 {
            ctx == start_context(CONTEXT_LENGTH as nat)
        } else {
            exists|prev: Seq<Token>, t: Token|
                #![trigger self.count(prev, t), shift(prev, t)]
                self.reachable(prev, (n - 1) as nat) && self.count(prev, t) > 0 && t is Text
                    && ctx == shift(prev, t)
        }
    }

    /// A well-formed model that knows the all-`Start` context knows every
    /// context that generation can reach from it: generation never meets an
    /// unknown context.
    pub proof fn lemma_reachable_known(&self, ctx: Seq<Token>, n: nat)
        requires
            self.wf(),
            self.has_context(start_context(CONTEXT_LENGTH as nat)),
            self.reachable(ctx, n),
        ensures
            self.has_context(ctx),
        decreases n,
    {
        if n > 0 {
            let (prev, t) = choose|prev: Seq<Token>, t: Token|
                #![trigger self.count(prev, t), shift(prev, t)]
                self.reachable(prev, (n - 1) as nat) && self.count(prev, t) > 0 && t is Text
                    && ctx == shift(prev, t);
            self.lemma_reachable_known(prev, (n - 1) as nat);
        }
    }

    /// Whether the all-`Start` context, where generation begins, is known.
    pub fn can_generate(&self) -> (r: bool)
        ensures
            r == self.has_context(start_context(CONTEXT_LENGTH as nat)),
    {
        let start = Self::start_tokens();
        match self.find(&start) {
            Some(_) => true,
            None => false,
        }
    }

    /// A generation at its beginning: the all-`Start` context, no text.
    pub fn start_generation(&self) -> (g: Generation)
        ensures
            g.context() == start_context(CONTEXT_LENGTH as nat),
            g.produced() == Seq::<char>::empty(),
            !g.is_finished(),
    {
        let start = Self::start_tokens();
        Generation { context: start, text: String::new(), finished: false }
    }

    /// The number of observations recorded for the generation's context:
    /// the draws that `advance_with` takes are below it.
    pub fn draw_bound(&self, g: &Generation) -> (r: usize)
        requires
            self.wf(),
            self.has_context(g.context()),
        ensures
            r == self.sampler_of(g.context()).total(),
            r > 0,
    {
        match self.find(&g.context) {
            Some(i) => {
                proof {
                    self.lemma_sampler_at(i as int);
                }
                self.table[i].sampler.token_count()
            },
            None => {
                proof {
                    assert(false);
                }
                0
            },
        }
    }

    /// Applies a drawn token to the generation.
    fn apply(&self, g: &mut Generation, t: Token)
        requires
            !old(g).is_finished(),
            old(g).context().len() > 0,
            t != Token::Start,
            t is Text ==> self.has_context(shift(old(g).context(), t)),
        ensures
            step_result(*old(g), t, *final(g)),
            !final(g).is_finished() ==> self.has_context(final(g).context()),
    {
        match t {
            Token::Text(c) => {
                push_char(&mut g.text, c);
                g.context = shifted(&g.context, t);
            },
            Token::End => {
                g.finished = true;
            },
            Token::Start => {},
        }
    }

    /// One step of generation for a given draw: the token that the draw
    /// selects among those recorded after the current context.
    pub fn advance_with(&self, g: &mut Generation, draw: usize)
        requires
            self.wf(),
            !old(g).is_finished(),
            self.has_context(old(g).context()),
            draw < self.sampler_of(old(g).context()).total(),
        ensures
            step_result(
                *old(g),
                pick(self.sampler_of(old(g).context()).recorded(), draw as int),
                *final(g),
            ),
            self.count(old(g).context(), pick(self.sampler_of(old(g).context()).recorded(), draw as int)) > 0,
            !final(g).is_finished() ==> self.has_context(final(g).context()),
    {
        match self.find(&g.context) {
            Some(i) => {
                proof {
                    self.lemma_sampler_at(i as int);
                }
                let t = self.table[i].sampler.sample_at(draw);
                proof {
                    self.lemma_successors_known(g.context@, t);
                }
                self.apply(g, t);
            },
            None => {
                proof {
                    assert(false);
                }
            },
        }
    }

    /// One step of generation: a token drawn at random, each with
    /// probability proportional to how often it followed the current context.
    pub fn advance(&self, g: &mut Generation)
        requires
            self.wf(),
            !old(g).is_finished(),
            self.has_context(old(g).context()),
        ensures
            exists|d: int|
                0 <= d < self.sampler_of(old(g).context()).total() && step_result(
                    *old(g),
                    #[trigger] pick(self.sampler_of(old(g).context()).recorded(), d),
                    *final(g),
                ),
            exists|t: Token| #![trigger self.count(old(g).context(), t)]
                self.count(old(g).context(), t) > 0 && step_result(*old(g), t, *final(g)),
            !final(g).is_finished() ==> self.has_context(final(g).context()),
    {
        match self.find(&g.context) {
            Some(i) => {
                proof {
                    self.lemma_sampler_at(i as int);
                }
                let t = self.table[i].sampler.sample();
                proof {
                    self.lemma_successors_known(g.context@, t);
                }
                self.apply(g, t);
            },
            None => {
                proof {
                    assert(false);
                }
            },
        }
    }

    /// Trains on `text`: every window of `CONTEXT_LENGTH + 1` tokens of its
    /// token stream records its last token as a successor of the others.
    pub fn add_sample_text(&mut self, text: &str)
        requires
            old(self).wf(),
            old(self).observed() + text@.len() + 1 <= usize::MAX,
        ensures
            final(self).wf(),
            final(self).observed() == old(self).observed() + text@.len() + 1,
            final(self).has_context(start_context(CONTEXT_LENGTH as nat)),
            forall|x: Seq<Token>| #![trigger final(self).has_context(x)]
                final(self).has_context(x) == (old(self).has_context(x) || is_window_context(
                    tokens_of(CONTEXT_LENGTH as nat, text@),
                    CONTEXT_LENGTH as nat,
                    x,
                )),
            forall|x: Seq<Token>, t: Token| #![trigger final(self).count(x, t)]
                final(self).count(x, t) == old(self).count(x, t) + window_count(
                    tokens_of(CONTEXT_LENGTH as nat, text@),
                    CONTEXT_LENGTH as nat,
                    x,
                    t,
                ),
            forall|x: Seq<Token>| #![trigger final(self).context_total(x)]
                final(self).context_total(x) == old(self).context_total(x) + window_context_count(
                    tokens_of(CONTEXT_LENGTH as nat, text@),
                    CONTEXT_LENGTH as nat,
                    x,
                ),
    {
        let tokens = self.tokenize(text);
        let ghost s = tokens@;
        let ghost l = CONTEXT_LENGTH as nat;
        proof {
            crate::token::lemma_tokens_of(l, text@);
        }
        let ghost z: int = 0;
        assert(s.subrange(z, z + l) =~= start_context(l));
        assert(is_window_context(s, l, start_context(l)));
        self.add_tokenized_sample_text(&tokens);
    }

    /// Trains on each of `texts` in turn.
    pub fn add_sample_texts(&mut self, texts: &Vec<&str>)
        requires
            old(self).wf(),
            old(self).observed() + texts_size(texts@) <= usize::MAX,
        ensures
            final(self).wf(),
            final(self).observed() == old(self).observed() + texts_size(texts@),
            texts@.len() > 0 ==> final(self).has_context(start_context(CONTEXT_LENGTH as nat)),
            forall|x: Seq<Token>| #![trigger final(self).has_context(x)]
                final(self).has_context(x) == (old(self).has_context(x) || texts_cover(
                    CONTEXT_LENGTH as nat,
                    texts@,
                    x,
                )),
            forall|x: Seq<Token>, t: Token| #![trigger final(self).count(x, t)]
                final(self).count(x, t) == old(self).count(x, t) + texts_count(
                    CONTEXT_LENGTH as nat,
                    texts@,
                    x,
                    t,
                ),
            forall|x: Seq<Token>| #![trigger final(self).context_total(x)]
                final(self).context_total(x) == old(self).context_total(x) + texts_context_total(
                    CONTEXT_LENGTH as nat,
                    texts@,
                    x,
                ),
    {
        let ghost pre = *self;
        let ghost l = CONTEXT_LENGTH as nat;
        let mut i: usize = 0;
        while i < texts.len()
            invariant
                l == CONTEXT_LENGTH,
                i <= texts@.len(),
                self.wf(),
                pre.observed() + texts_size(texts@) <= usize::MAX,
                self.observed() == pre.observed() + texts_size(texts@.subrange(0, i as int)),
                i > 0 ==> self.has_context(start_context(l)),
                forall|x: Seq<Token>| #![trigger self.has_context(x)]
                    self.has_context(x) == (pre.has_context(x) || texts_cover(l, texts@.subrange(0, i as int), x)),
                forall|x: Seq<Token>, t: Token| #![trigger self.count(x, t)]
                    self.count(x, t) == pre.count(x, t) + texts_count(l, texts@.subrange(0, i as int), x, t),
                forall|x: Seq<Token>| #![trigger self.context_total(x)]
                    self.context_total(x) == pre.context_total(x) + texts_context_total(l, texts@.subrange(0, i as int), x),
            decreases texts@.len() - i,
        {
            let ghost done = texts@.subrange(0, i as int);
            let ghost upto = texts@.subrange(0, i + 1);
            assert(upto.drop_last() =~= done);
            proof {
                lemma_texts_size_prefix(texts@, i + 1);
            }
            let ghost mid = *self;
            self.add_sample_text(texts[i]);
            proof {
                assert forall|x: Seq<Token>| #![trigger self.has_context(x)]
                    self.has_context(x) == (pre.has_context(x) || texts_cover(l, upto, x)) by {
                    if texts_cover(l, upto, x) {
                        let k = choose|k: int| 0 <= k < upto.len() && is_window_context(tokens_of(l, #[trigger] upto[k]@), l, x);
                        if k < i {
                            assert(done[k] == upto[k]);
                            assert(texts_cover(l, done, x));
                        }
                    }
                    if texts_cover(l, done, x) {
                        let k = choose|k: int| 0 <= k < done.len() && is_window_context(tokens_of(l, #[trigger] done[k]@), l, x);
                        assert(done[k] == upto[k]);
                    }
                    if is_window_context(tokens_of(l, texts@[i as int]@), l, x) {
                        assert(upto[i as int] == texts@[i as int]);
                    }
                }
                assert forall|x: Seq<Token>, t: Token| #![trigger self.count(x, t)]
                    self.count(x, t) == pre.count(x, t) + texts_count(l, upto, x, t) by {
                    assert(mid.count(x, t) == pre.count(x, t) + texts_count(l, done, x, t));
                }
                assert forall|x: Seq<Token>| #![trigger self.context_total(x)]
                    self.context_total(x) == pre.context_total(x) + texts_context_total(l, upto, x) by {
                    assert(mid.context_total(x) == pre.context_total(x) + texts_context_total(l, done, x));
                }
            }
            i = i + 1;
        }
        assert(texts@.subrange(0, texts@.len() as int) =~= texts@);
    }

    /// Trains on a token stream: each window of `CONTEXT_LENGTH + 1` tokens
    /// records its last token as a successor of its first `CONTEXT_LENGTH`.
    /// A stream shaped as tokenization makes them keeps the whole invariant.
    fn add_tokenized_sample_text(&mut self, tokenized_text: &Vec<Token>)
        requires
            old(self).table_wf(),
            old(self).observed() + window_total(tokenized_text@, CONTEXT_LENGTH as nat) <= usize::MAX,
        ensures
            final(self).table_wf(),
            sentinel_shaped(tokenized_text@, CONTEXT_LENGTH as nat) && old(self).wf() ==> final(self).wf(),
            final(self).observed() == old(self).observed() + window_total(
                tokenized_text@,
                CONTEXT_LENGTH as nat,
            ),
            forall|x: Seq<Token>| #![trigger final(self).has_context(x)]
                final(self).has_context(x) == (old(self).has_context(x) || is_window_context(
                    tokenized_text@,
                    CONTEXT_LENGTH as nat,
                    x,
                )),
            forall|x: Seq<Token>, t: Token| #![trigger final(self).count(x, t)]
                final(self).count(x, t) == old(self).count(x, t) + window_count(
                    tokenized_text@,
                    CONTEXT_LENGTH as nat,
                    x,
                    t,
                ),
            forall|x: Seq<Token>| #![trigger final(self).context_total(x)]
                final(self).context_total(x) == old(self).context_total(x) + window_context_count(
                    tokenized_text@,
                    CONTEXT_LENGTH as nat,
                    x,
                ),
    {
        let ghost s = tokenized_text@;
        let ghost l = CONTEXT_LENGTH as nat;
        let ghost pre = *self;
        let ghost good = sentinel_shaped(s, l) && pre.wf();
        if tokenized_text.len() <= CONTEXT_LENGTH {
            assert forall|x: Seq<Token>| #[trigger] is_window_context(s, l, x) == false by {}
            return;
        }
        let m = tokenized_text.len() - CONTEXT_LENGTH;
        let mut i: usize = 0;
        assert(s.len() == tokenized_text.len());
        while i < m
            invariant
                s == tokenized_text@,
                l == CONTEXT_LENGTH,
                m + l == s.len(),
                s.len() <= usize::MAX,
                i <= m,
                good == (sentinel_shaped(s, l) && pre.wf()),
                self.table_wf(),
                self.observed() == pre.observed() + i,
                pre.observed() + m <= usize::MAX,
                forall|x: Seq<Token>| #![trigger self.has_context(x)]
                    self.has_context(x) == (pre.has_context(x) || exists|k: int|
                        0 <= k < i && #[trigger] s.subrange(k, k + l) == x),
                forall|x: Seq<Token>, t: Token| #![trigger self.count(x, t)]
                    self.count(x, t) == pre.count(x, t) + window_count(
                        s.subrange(0, i + l),
                        l,
                        x,
                        t,
                    ),
                forall|x: Seq<Token>| #![trigger self.context_total(x)]
                    self.context_total(x) == pre.context_total(x) + window_context_count(
                        s.subrange(0, i + l),
                        l,
                        x,
                    ),
                good ==> self.no_start_successor(),
                good ==> forall|x: Seq<Token>, t: Token| #![trigger self.count(x, t)]
                    self.count(x, t) > 0 && t is Text ==> self.has_context(shift(x, t))
                        || shift(x, t) == s.subrange(i as int, i + l),
            decreases m - i,
        {
            let mut context: Vec<Token> = Vec::new();
            let mut j: usize = 0;
            while j < CONTEXT_LENGTH
                invariant
                    s == tokenized_text@,
                    l == CONTEXT_LENGTH,
                    m + l == s.len(),
                    s.len() <= usize::MAX,
                    i < m,
                    j <= l,
                    context@ == s.subrange(i as int, i + j),
                decreases l - j,
            {
                context.push(tokenized_text[i + j]);
                j = j + 1;
                assert(context@ =~= s.subrange(i as int, i + j));
            }
            let next = tokenized_text[i + CONTEXT_LENGTH];
            let ghost mid = *self;
            let ghost ctx = context@;
            self.record(context, next);
            proof {
                let p = s.subrange(0, i + l);
                let q = s.subrange(0, i + 1 + l);
                assert(q.drop_last() =~= p);
                assert(q.subrange(q.len() - 1 - l, q.len() - 1) =~= ctx);
                assert(q.last() == next);
                assert forall|x: Seq<Token>, t: Token| #![trigger self.count(x, t)]
                    self.count(x, t) == pre.count(x, t) + window_count(q, l, x, t) by {
                    assert(mid.count(x, t) == pre.count(x, t) + window_count(p, l, x, t));
                }
                assert forall|x: Seq<Token>| #![trigger self.context_total(x)]
                    self.context_total(x) == pre.context_total(x) + window_context_count(q, l, x) by {
                    assert(mid.context_total(x) == pre.context_total(x) + window_context_count(p, l, x));
                }
                assert forall|x: Seq<Token>| #![trigger self.has_context(x)]
                    self.has_context(x) == (pre.has_context(x) || exists|k: int|
                        0 <= k < i + 1 && #[trigger] s.subrange(k, k + l) == x) by {
                    if x == ctx {
                        assert(s.subrange(i as int, i + l) == x);
                    }
                    if exists|k: int| 0 <= k < i + 1 && #[trigger] s.subrange(k, k + l) == x {
                        let k = choose|k: int| 0 <= k < i + 1 && #[trigger] s.subrange(k, k + l) == x;
                        if k < i {
                            assert(mid.has_context(x));
                        }
                    }
                }
                if good {
                    assert(next != Token::Start);
                    assert forall|x: Seq<Token>| #[trigger] self.count(x, Token::Start) == 0 by {
                        assert(mid.count(x, Token::Start) == 0);
                    }
                    assert(shift(ctx, next) =~= s.subrange(i + 1, i + 1 + l));
                    Self::lemma_closure_step(mid, *self, ctx, next, s.subrange(i + 1, i + 1 + l));
                }
            }
            i = i + 1;
        }
        proof {
            assert(s.subrange(0, m + l) =~= s);
            assert forall|x: Seq<Token>| #![trigger self.has_context(x)]
                self.has_context(x) == (pre.has_context(x) || is_window_context(s, l, x)) by {
                if is_window_context(s, l, x) {
                    let k = choose|k: int| 0 <= k && k + l < s.len() && #[trigger] s.subrange(k, k + l) == x;
                    assert(0 <= k < m && s.subrange(k, k + l) == x);
                }
                if exists|k: int| 0 <= k < m && #[trigger] s.subrange(k, k + l) == x {
                    let k = choose|k: int| 0 <= k < m && #[trigger] s.subrange(k, k + l) == x;
                    assert(k + l < s.len());
                }
            }
            if good {
                assert forall|x: Seq<Token>, t: Token| #![trigger self.count(x, t)]
                    self.count(x, t) > 0 && t is Text implies self.has_context(shift(x, t)) by {
                    let sh = shift(x, t);
                    assert(self.has_context(sh) || sh == s.subrange(m as int, m + l));
                    if sh == s.subrange(m as int, m + l) {
                        assert(sh[sh.len() - 1] == t);
                        assert(sh[sh.len() - 1] == s[s.len() - 1]);
                    }
                }
            }
        }
    }

    proof fn lemma_closure_step(mid: Self, post: Self, ctx: Seq<Token>, next: Token, target: Seq<Token>)
        requires
            forall|x: Seq<Token>| #![trigger post.has_context(x)] post.has_context(x) == (mid.has_context(x) || x == ctx),
            forall|x: Seq<Token>, t: Token| #![trigger post.count(x, t)]
                post.count(x, t) == mid.count(x, t) + one_if(x == ctx && t == next),
            forall|x: Seq<Token>, t: Token| #![trigger mid.count(x, t)]
                mid.count(x, t) > 0 && t is Text ==> mid.has_context(shift(x, t))
                    || shift(x, t) == ctx,
            shift(ctx, next) == target,
        ensures
            forall|x: Seq<Token>, t: Token| #![trigger post.count(x, t)]
                post.count(x, t) > 0 && t is Text ==> post.has_context(shift(x, t))
                    || shift(x, t) == target,
    {
        assert forall|x: Seq<Token>, t: Token| #![trigger post.count(x, t)]
            post.count(x, t) > 0 && t is Text implies post.has_context(shift(x, t))
                || shift(x, t) == target by {
            let sh = shift(x, t);
            assert(post.count(x, t) == mid.count(x, t) + one_if(x == ctx && t == next));
            if mid.count(x, t) > 0 {
                assert(mid.has_context(sh) || sh == ctx);
                assert(post.has_context(sh) == (mid.has_context(sh) || sh == ctx));
            }
        }
    }

    /// What a bumped row does to the model's view: `post` is `pre` with row
    /// `k` holding `ctx` and one more observation of `next`, the row being
    /// new when `k` is past the end of `pre`.
    proof fn lemma_row_bumped(pre: Self, post: Self, k: int, ctx: Seq<Token>, next: Token)
        requires
            pre.table_wf(),
            post.table_wf(),
            0 <= k <= pre.table@.len(),
            post.table@.len() == if k < pre.table@.len() {
                pre.table@.len()
            } else {
                pre.table@.len() + 1
            },
            forall|j: int| 0 <= j < pre.table@.len() && j != k ==> post.table@[j] == pre.table@[j],
            post.table@[k].context@ == ctx,
            k < pre.table@.len() ==> pre.table@[k].context@ == ctx,
            k == pre.table@.len() ==> !pre.has_context(ctx),
            forall|t: Token| #[trigger] post.table@[k].sampler.count(t) == (if k < pre.table@.len() {
                pre.table@[k].sampler.count(t)
            } else {
                0
            }) + one_if(t == next),
            post.table@[k].sampler.total() == (if k < pre.table@.len() {
                pre.table@[k].sampler.total()
            } else {
                0
            }) + 1,
        ensures
            forall|x: Seq<Token>| #![trigger post.has_context(x)]
                post.has_context(x) == (pre.has_context(x) || x == ctx),
            forall|x: Seq<Token>, t: Token| #![trigger post.count(x, t)]
                post.count(x, t) == pre.count(x, t) + one_if(x == ctx && t == next),
            forall|x: Seq<Token>| #![trigger post.context_total(x)]
                post.context_total(x) == pre.context_total(x) + one_if(x == ctx),
    {
        post.lemma_sampler_at(k);
        if k < pre.table@.len() {
            pre.lemma_sampler_at(k);
        }
        assert forall|x: Seq<Token>| #![trigger post.has_context(x)]
            post.has_context(x) == (pre.has_context(x) || x == ctx) by {
            if pre.has_context(x) {
                let j = choose|j: int| 0 <= j < pre.table@.len() && #[trigger] pre.table@[j].context@ == x;
                if j != k {
                    assert(post.table@[j].context@ == x);
                }
            }
            if post.has_context(x) && x != ctx {
                let j = choose|j: int| 0 <= j < post.table@.len() && #[trigger] post.table@[j].context@ == x;
                assert(pre.table@[j].context@ == x);
            }
        }
        assert forall|x: Seq<Token>, t: Token| #![trigger post.count(x, t)]
            post.count(x, t) == pre.count(x, t) + one_if(x == ctx && t == next) by {
            if x != ctx && pre.has_context(x) {
                let j = choose|j: int| 0 <= j < pre.table@.len() && #[trigger] pre.table@[j].context@ == x;
                pre.lemma_sampler_at(j);
                post.lemma_sampler_at(j);
            }
        }
        assert forall|x: Seq<Token>| #![trigger post.context_total(x)]
            post.context_total(x) == pre.context_total(x) + one_if(x == ctx) by {
            if x != ctx && pre.has_context(x) {
                let j = choose|j: int| 0 <= j < pre.table@.len() && #[trigger] pre.table@[j].context@ == x;
                pre.lemma_sampler_at(j);
                post.lemma_sampler_at(j);
            }
        }
    }

    /// Records that `next` followed `context` once.
    fn record(&mut self, context: Vec<Token>, next: Token)
        requires
            old(self).table_wf(),
            context@.len() == CONTEXT_LENGTH,
            old(self).observed() < usize::MAX,
        ensures
            final(self).table_wf(),
            final(self).observed() == old(self).observed() + 1,
            forall|x: Seq<Token>| #![trigger final(self).has_context(x)]
                final(self).has_context(x) == (old(self).has_context(x) || x == context@),
            forall|x: Seq<Token>, t: Token| #![trigger final(self).count(x, t)]
                final(self).count(x, t) == old(self).count(x, t) + one_if(x == context@ && t == next),
            forall|x: Seq<Token>| #![trigger final(self).context_total(x)]
                final(self).context_total(x) == old(self).context_total(x) + one_if(x == context@),
    {
        let ghost pre = *self;
        let ghost ctx = context@;
        match self.find(&context) {
            Some(i) => {
                let mut entry = self.table.remove(i);
                proof {
                    pre.lemma_sampler_at(i as int);
                }
                entry.sampler.add_token(next);
                self.table.insert(i, entry);
                self.observations = self.observations + 1;
                assert(self.table@ =~= pre.table@.update(i as int, entry));
                proof {
                    Self::lemma_row_bumped(pre, *self, i as int, ctx, next);
                }
            },
            None => {
                let mut sampler = TokenSampler::new();
                sampler.add_token(next);
                self.table.push(ContextEntry { context, sampler });
                self.observations = self.observations + 1;
                proof {
                    Self::lemma_row_bumped(pre, *self, pre.table@.len() as int, ctx, next);
                }
            },
        }
    }

    /// The row that holds `ctx`, if any.
    fn find(&self, ctx: &Vec<Token>) -> (r: Option<usize>)
        ensures
            match r {
                Some(i) => i < self.table@.len() && self.table@[i as int].context@ == ctx@,
                None => !self.has_context(ctx@),
            },
    {
        let mut i: usize = 0;
        while i < self.table.len()
            invariant
                i <= self.table@.len(),
                forall|j: int| 0 <= j < i ==> self.table@[j].context@ != ctx@,
            decreases self.table@.len() - i,
        {
            if same_tokens(&self.table[i].context, ctx) {
                return Some(i);
            }
            i = i + 1;
        }
        None
    }
}

/// Whether two token sequences are equal.
fn same_tokens(a: &Vec<Token>, b: &Vec<Token>) -> (r: bool)
    ensures
        r == (a@ == b@),
{
    if a.len() != b.len() {
        return false;
    }
    let mut i: usize = 0;
    while i < a.len()
        invariant
            a@.len() == b@.len(),
            i <= a@.len(),
            forall|j: int| 0 <= j < i ==> a@[j] == b@[j],
        decreases a@.len() - i,
    {
        if a[i] != b[i] {
            return false;
        }
        i = i + 1;
    }
    assert(a@ =~= b@);
    true
}

} // verus!
