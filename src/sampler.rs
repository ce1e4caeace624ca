use vstd::prelude::*;
use crate::token::Token;
use rand::Rng;

verus! {

/// Sum of the counts of `entries`.
pub open spec fn total_of(entries: Seq<(Token, usize)>) -> nat
    decreases entries.len(),
{
    if entries.len() == 0 {
        0
    } else {
        entries[0].1 as nat + total_of(entries.drop_first())
    }
}

/// How many observations of `t` the entries record.
pub open spec fn count_of(entries: Seq<(Token, usize)>, t: Token) -> nat
    decreases entries.len(),
{
    if entries.len() == 0 {
        0
    } else {
        (if entries[0].0 == t { entries[0].1 as nat } else { 0 }) + count_of(entries.drop_first(), t)
    }
}

/// The token that a draw `d` selects when the draws `0 .. total_of(entries)`
/// are laid out in order, each entry taking as many of them as its count.
pub open spec fn pick(entries: Seq<(Token, usize)>, d: int) -> Token
    decreases entries.len(),
{
    if entries.len() == 0 {
        Token::End
    } else if d < entries[0].1 {
        entries[0].0
    } else {
        pick(entries.drop_first(), d - entries[0].1)
    }
}

/// Where `t` is stored among `entries`, if it is.
pub open spec fn index_of(entries: Seq<(Token, usize)>, t: Token) -> Option<int> {
    if exists|i: int| 0 <= i < entries.len() && #[trigger] entries[i].0 == t {
        Some(choose|i: int| 0 <= i < entries.len() && #[trigger] entries[i].0 == t)
    } else {
        None
    }
}

/// How many of the draws `0 .. n` select `t`.
pub open spec fn draws_selecting(entries: Seq<(Token, usize)>, t: Token, n: nat) -> nat
    decreases n,
{
    if n == 0 {
        0
    } else {
        draws_selecting(entries, t, (n - 1) as nat) + if pick(entries, n - 1) == t {
            1nat
        } else {
            0nat
        }
    }
}

proof fn lemma_draws_in_first(s: Seq<(Token, usize)>, t: Token, n: nat)
    requires
        s.len() > 0,
        n <= s[0].1,
    ensures
        draws_selecting(s, t, n) == if s[0].0 == t { n } else { 0 },
    decreases n,
{
    if n > 0 {
        lemma_draws_in_first(s, t, (n - 1) as nat);
    }
}

proof fn lemma_draws_past_first(s: Seq<(Token, usize)>, t: Token, m: nat)
    requires
        s.len() > 0,
    ensures
        draws_selecting(s, t, s[0].1 as nat + m) == draws_selecting(s, t, s[0].1 as nat)
            + draws_selecting(s.drop_first(), t, m),
    decreases m,
{
    if m > 0 {
        lemma_draws_past_first(s, t, (m - 1) as nat);
        assert(pick(s, s[0].1 + m - 1) == pick(s.drop_first(), m - 1));
    }
}

proof fn lemma_draws_match_counts(s: Seq<(Token, usize)>, t: Token)
    ensures
        draws_selecting(s, t, total_of(s)) == count_of(s, t),
    decreases s.len(),
{
    if s.len() > 0 {
        lemma_draws_match_counts(s.drop_first(), t);
        lemma_draws_in_first(s, t, s[0].1 as nat);
        lemma_draws_past_first(s, t, total_of(s.drop_first()));
    }
}

/// The observed distribution of the tokens that followed one context.
pub struct TokenSampler {
    token_count: usize,
    entries: Vec<(Token, usize)>,
}

impl TokenSampler {
    /// Each token is stored at most once, with a positive count, and the
    /// total is the sum of the stored counts.
    pub closed spec fn wf(&self) -> bool {
        &&& forall|i: int, j: int|
            0 <= i < j < self.entries@.len() ==> self.entries@[i].0 != self.entries@[j].0
        &&& forall|i: int| 0 <= i < self.entries@.len() ==> self.entries@[i].1 > 0
        &&& self.token_count == total_of(self.entries@)
    }

    /// Number of observations recorded.
    pub closed spec fn total(&self) -> nat {
        self.token_count as nat
    }

    /// Number of times `t` was recorded.
    pub closed spec fn count(&self, t: Token) -> nat {
        count_of(self.entries@, t)
    }

    pub fn new() -> (r: TokenSampler)
        ensures
            r.wf(),
            r.total() == 0,
            r.recorded() == Seq::<(Token, usize)>::empty(),
            forall|t: Token| r.count(t) == 0,
    {
        TokenSampler { token_count: 0, entries: Vec::new() }
    }

    /// The number of observations recorded.
    pub fn token_count(&self) -> (r: usize)
        ensures
            r == self.total(),
    {
        self.token_count
    }

    /// The stored (token, count) pairs, in their stored order.
    pub closed spec fn recorded(&self) -> Seq<(Token, usize)> {
        self.entries@
    }

    /// What `wf` keeps: the total is the sum of the stored counts, each
    /// stored count is positive, each token is stored at most once, and a
    /// token's count is what is stored for it.
    pub proof fn lemma_total_is_sum(&self)
        requires
            self.wf(),
        ensures
            self.total() == total_of(self.recorded()),
            forall|i: int| 0 <= i < self.recorded().len() ==> #[trigger] self.recorded()[i].1 > 0,
            forall|i: int, j: int|
                0 <= i < j < self.recorded().len() ==> #[trigger] self.recorded()[i].0 != #[trigger] self.recorded()[j].0,
            forall|t: Token| #[trigger] self.count(t) == count_of(self.recorded(), t),
    {
    }

    /// Of the `total()` equally likely draws that `sample` takes, exactly
    /// `count(t)` select `t`: each token comes up with probability
    /// `count(t) / total()`.
    pub proof fn lemma_sampling_distribution(&self, t: Token)
        requires
            self.wf(),
        ensures
            draws_selecting(self.recorded(), t, self.total()) == self.count(t),
    {
        lemma_draws_match_counts(self.entries@, t);
    }

    /// The token that the draw `draw` selects: the stored counts are laid
    /// out one after another over `0 .. total()`, and the token whose stretch
    /// holds `draw` is returned.
    pub fn sample_at(&self, draw: usize) -> (r: Token)
        requires
            self.wf(),
            draw < self.total(),
        ensures
            r == pick(self.recorded(), draw as int),
            self.count(r) > 0,
    {
        proof {
            lemma_pick_recorded(self.entries@, draw as int);
        }
        let ghost s = self.entries@;
        let mut rest = draw;
        let mut i: usize = 0;
        assert(s.subrange(0, s.len() as int) =~= s);
        loop
            invariant
                s == self.entries@,
                self.count(pick(s, draw as int)) > 0,
                i <= s.len(),
                rest < total_of(s.subrange(i as int, s.len() as int)),
                pick(s, draw as int) == pick(s.subrange(i as int, s.len() as int), rest as int),
            decreases s.len() - i,
        {
            let ghost tail = s.subrange(i as int, s.len() as int);
            assert(tail.len() > 0);
            assert(tail.drop_first() =~= s.subrange(i + 1, s.len() as int));
            assert(i < self.entries.len());
            let c = self.entries[i].1;
            if rest < c {
                return self.entries[i].0;
            }
            rest = rest - c;
            i = i + 1;
        }
    }

    /// Draws a token at random, each with probability proportional to its
    /// count: one uniform draw from `0 .. total()`, resolved by `sample_at`.
    pub fn sample(&self) -> (r: Token)
        requires
            self.wf(),
            self.total() > 0,
        ensures
            exists|d: int| 0 <= d < self.total() && r == #[trigger] pick(self.recorded(), d),
            self.count(r) > 0,
    {
        let draw = random_below(self.token_count);
        self.sample_at(draw)
    }

    /// The number of times `token` was recorded.
    pub fn occurrences(&self, token: Token) -> (r: usize)
        requires
            self.wf(),
        ensures
            r == self.count(token),
    {
        let ghost s = self.entries@;
        let mut i: usize = 0;
        let mut found: usize = 0;
        proof {
            lemma_count_le_total(s);
            assert(s.subrange(0, s.len() as int) =~= s);
        }
        while i < self.entries.len()
            invariant
                s == self.entries@,
                self.wf(),
                count_of(s, token) <= total_of(s),
                i <= s.len(),
                found + count_of(s.subrange(i as int, s.len() as int), token) == count_of(s, token),
            decreases s.len() - i,
        {
            let ghost tail = s.subrange(i as int, s.len() as int);
            assert(tail.drop_first() =~= s.subrange(i + 1, s.len() as int));
            if self.entries[i].0 == token {
                found = found + self.entries[i].1;
            }
            i = i + 1;
        }
        found
    }

    /// Records one more observation of `token`.
    pub fn add_token(&mut self, token: Token)
        requires
            old(self).wf(),
            old(self).total() < usize::MAX,
        ensures
            final(self).wf(),
            final(self).total() == old(self).total() + 1,
            final(self).total() == total_of(final(self).recorded()),
            final(self).count(token) == old(self).count(token) + 1,
            forall|t: Token| t != token ==> final(self).count(t) == old(self).count(t),
            match index_of(old(self).recorded(), token) {
                Some(i) => final(self).recorded() == old(self).recorded().update(
                    i,
                    (token, (old(self).recorded()[i].1 + 1) as usize),
                ),
                None => final(self).recorded() == old(self).recorded().push((token, 1usize)),
            },
    {
        let mut i: usize = 0;
        while i < self.entries.len()
            invariant
                self == old(self),
                self.wf(),
                self.total() < usize::MAX,
                i <= self.entries@.len(),
                forall|j: int| 0 <= j < i ==> self.entries@[j].0 != token,
            ensures
                i <= self.entries@.len(),
                i < self.entries@.len() ==> self.entries@[i as int].0 == token,
                forall|j: int| 0 <= j < i ==> self.entries@[j].0 != token,
            decreases self.entries@.len() - i,
        {
            if self.entries[i].0 == token {
                break;
            }
            i = i + 1;
        }
        proof {
            lemma_count_le_total(self.entries@);
        }
        if i < self.entries.len() {
            assert(index_of(self.entries@, token) == Some(i as int));
            let c = self.entries[i].1;
            proof {
                lemma_entry_le_total(self.entries@, i as int);
                lemma_bump(self.entries@, i as int);
            }
            self.entries.set(i, (token, c + 1));
        } else {
            assert(index_of(self.entries@, token) == None::<int>);
            proof {
                lemma_push(self.entries@, token);
            }
            self.entries.push((token, 1));
        }
        self.token_count = self.token_count + 1;
    }
}

/// Relies on rand's `thread_rng` and `Rng::gen_range`: a value drawn from the
/// half-open range `0..n`, which it panics on only when that range is empty.
#[verifier::external_body]
fn random_below(n: usize) -> (r: usize)
    requires
        n > 0,
    ensures
        r < n,
{
    rand::thread_rng().gen_range(0..n)
}

proof fn lemma_pick_recorded(s: Seq<(Token, usize)>, d: int)
    requires
        0 <= d < total_of(s),
    ensures
        count_of(s, pick(s, d)) > 0,
    decreases s.len(),
{
    if d >= s[0].1 {
        lemma_pick_recorded(s.drop_first(), d - s[0].1);
    }
}

proof fn lemma_entry_le_total(s: Seq<(Token, usize)>, i: int)
    requires
        0 <= i < s.len(),
    ensures
        s[i].1 <= total_of(s),
    decreases s.len(),
{
    if i > 0 {
        lemma_entry_le_total(s.drop_first(), i - 1);
    }
}

proof fn lemma_count_le_total(s: Seq<(Token, usize)>)
    ensures
        forall|t: Token| count_of(s, t) <= total_of(s),
    decreases s.len(),
{
    if s.len() > 0 {
        lemma_count_le_total(s.drop_first());
        assert forall|t: Token| count_of(s, t) <= total_of(s) by {
            assert(count_of(s.drop_first(), t) <= total_of(s.drop_first()));
        }
    }
}

proof fn lemma_bump(s: Seq<(Token, usize)>, i: int)
    requires
        0 <= i < s.len(),
        s[i].1 < usize::MAX,
    ensures
        total_of(s.update(i, (s[i].0, (s[i].1 + 1) as usize))) == total_of(s) + 1,
        forall|t: Token|
            #[trigger] count_of(s.update(i, (s[i].0, (s[i].1 + 1) as usize)), t) == count_of(s, t)
                + if t == s[i].0 { 1nat } else { 0nat },
    decreases s.len(),
{
    let u = s.update(i, (s[i].0, (s[i].1 + 1) as usize));
    if i > 0 {
        lemma_bump(s.drop_first(), i - 1);
        assert(u.drop_first() =~= s.drop_first().update(i - 1, (s[i].0, (s[i].1 + 1) as usize)));
    } else {
        assert(u.drop_first() =~= s.drop_first());
    }
    assert(total_of(u) == u[0].1 + total_of(u.drop_first()));
    assert forall|t: Token|
        #[trigger] count_of(u, t) == count_of(s, t) + if t == s[i].0 { 1nat } else { 0nat } by {
        assert(count_of(u, t) == (if u[0].0 == t { u[0].1 as nat } else { 0 }) + count_of(u.drop_first(), t));
        assert(count_of(s, t) == (if s[0].0 == t { s[0].1 as nat } else { 0 }) + count_of(s.drop_first(), t));
    }
}

proof fn lemma_push(s: Seq<(Token, usize)>, k: Token)
    ensures
        total_of(s.push((k, 1usize))) == total_of(s) + 1,
        forall|t: Token|
            #[trigger] count_of(s.push((k, 1usize)), t) == count_of(s, t)
                + if t == k { 1nat } else { 0nat },
    decreases s.len(),
{
    let p = s.push((k, 1usize));
    if s.len() > 0 {
        lemma_push(s.drop_first(), k);
        assert(p.drop_first() =~= s.drop_first().push((k, 1usize)));
    } else {
        assert(p.drop_first() =~= Seq::<(Token, usize)>::empty());
    }
    assert(total_of(p) == p[0].1 + total_of(p.drop_first()));
    assert forall|t: Token|
        #[trigger] count_of(p, t) == count_of(s, t) + if t == k { 1nat } else { 0nat } by {
        assert(count_of(p, t) == (if p[0].0 == t { p[0].1 as nat } else { 0 }) + count_of(p.drop_first(), t));
    }
}

} // verus!
