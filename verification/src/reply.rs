//! Replies of the assistant: which of the tokens that are generated belong to one, and
//! when it is over.
use vstd::prelude::*;

use crate::engine::{
    all_at_end, at_end, first_generation, next_generation, stepped, Generation, Generator, Row,
};
use crate::TokenId;

verus! {

/// A reply in the making.
pub struct Reply {
    generated: Vec<TokenId>,
    max_tokens: usize,
    assistant_end: TokenId,
    finished: bool,
}

/// Whether a reply of these tokens may have more: it is shorter than allowed, and has
/// not been ended by the assistant.
pub open spec fn open_ended(tokens: Seq<TokenId>, max_tokens: int, end: TokenId) -> bool {
    tokens.len() < max_tokens && tokens.last() != end
}

/// The reply that begins with `tokens` and goes on with those that are sampled, for the
/// sequence `row`: until it is as long as allowed, the assistant ends it, or the sequence
/// is at its end. The token that brings the sequence to its end is not part of it.
pub open spec fn reply_of(
    tokens: Seq<TokenId>,
    row: Row,
    sampled: Seq<TokenId>,
    stop: Set<TokenId>,
    limit: nat,
    max_tokens: int,
    end: TokenId,
) -> Seq<TokenId>
    decreases sampled.len(),
{
    if sampled.len() == 0 || !open_ended(tokens, max_tokens, end) {
        tokens
    } else {
        let after = stepped(row, sampled[0], stop);
        if at_end(after, limit) {
            tokens
        } else {
            reply_of(
                tokens.push(sampled[0]),
                after,
                sampled.skip(1),
                stop,
                limit,
                max_tokens,
                end,
            )
        }
    }
}

/// Whether only the last of some tokens can be the one that ends a reply.
pub open spec fn ended_at_most_once(tokens: Seq<TokenId>, end: TokenId) -> bool {
    forall|i: int| 0 <= i < tokens.len() - 1 ==> #[trigger] tokens[i] != end
}

/// A reply with the token that ends it.
pub open spec fn closed_off(tokens: Seq<TokenId>, end: TokenId) -> Seq<TokenId> {
    if tokens.last() == end {
        tokens
    } else {
        tokens.push(end)
    }
}

impl Reply {
    /// The tokens so far.
    pub closed spec fn tokens(&self) -> Seq<TokenId> {
        self.generated@
    }

    /// How many tokens there may be.
    pub closed spec fn most(&self) -> int {
        self.max_tokens as int
    }

    /// The token with which the assistant ends a reply.
    pub closed spec fn end(&self) -> TokenId {
        self.assistant_end
    }

    /// Whether the sequence has come to its end.
    pub closed spec fn is_over(&self) -> bool {
        self.finished
    }

    /// There is a first token, no more than allowed after it, and none after the end.
    pub open spec fn wf(&self) -> bool {
        &&& self.tokens().len() > 0
        &&& self.tokens().len() == 1 || self.tokens().len() <= self.most()
        &&& ended_at_most_once(self.tokens(), self.end())
    }

    /// Whether another token is wanted.
    pub open spec fn wants(&self) -> bool {
        !self.is_over() && open_ended(self.tokens(), self.most(), self.end())
    }

    /// The one sequence that is generated goes on as the reply does, and after its first
    /// token the reply has none that ends a sequence.
    pub open spec fn follows(&self, g: Generation) -> bool {
        &&& g.rows.len() == 1
        &&& !self.is_over() ==> {
            &&& !g.rows[0].completed
            &&& self.tokens().is_suffix_of(g.rows[0].tokens)
        }
        &&& forall|i: int|
            0 < i < self.tokens().len() ==> !g.stop.contains(#[trigger] self.tokens()[i])
    }

    /// This is the reply `old` after a token has been sampled, with which generation is over
    /// or not.
    pub open spec fn goes_on(&self, old: &Self, token: TokenId, over: bool) -> bool {
        &&& self.most() == old.most()
        &&& self.end() == old.end()
        &&& self.is_over() == over
        &&& self.tokens() == if over {
            old.tokens()
        } else {
            old.tokens().push(token)
        }
    }

    /// A reply that begins with a token.
    pub fn start(first: TokenId, max_tokens: usize, assistant_end: TokenId) -> (r: Self)
        ensures
            r.wf(),
            r.tokens() == seq![first],
            r.most() == max_tokens,
            r.end() == assistant_end,
            !r.is_over(),
    {
        let mut generated: Vec<TokenId> = Vec::new();
        generated.push(first);
        assert(generated@ =~= seq![first]);
        Reply { generated, max_tokens, assistant_end, finished: false }
    }

    /// Whether another token is wanted.
    pub fn wants_more(&self) -> (r: bool)
        requires
            self.wf(),
        ensures
            r == self.wants(),
    {
        let n = self.generated.len();
        !self.finished && n < self.max_tokens && self.generated[n - 1] != self.assistant_end
    }

    /// Hands the generator the tokens that were sampled next, and takes the first sequence's
    /// into the reply, unless the generator has come to its end with them.
    pub fn take_step(&mut self, generator: &mut Generator, next_ids: &Vec<TokenId>) -> (r: Option<
        TokenId,
    >)
        requires
            old(self).wf(),
            old(self).wants(),
            old(generator).wf(),
            next_ids@.len() == old(generator)@.rows.len(),
        ensures
            final(self).wf(),
            final(self).most() == old(self).most(),
            final(self).end() == old(self).end(),
            final(generator).wf(),
            final(generator)@ == next_generation(old(generator)@, next_ids@),
            final(generator).sampling() == old(generator).sampling(),
            final(generator).kv_cache == old(generator).kv_cache,
            if all_at_end(final(generator)@) {
                &&& r is None
                &&& final(self).is_over()
                &&& final(self).tokens() == old(self).tokens()
            } else {
                &&& r == Some(next_ids@[0])
                &&& !final(self).is_over()
                &&& final(self).tokens() == old(self).tokens().push(next_ids@[0])
            },
            final(self).goes_on(old(self), next_ids@[0], all_at_end(final(generator)@)),
            old(self).follows(old(generator)@) ==> final(self).follows(final(generator)@),
    {
        let ghost g = generator@;
        generator.decode_step(next_ids);
        if generator.is_completed() {
            self.finished = true;
            return None;
        }
        let token = generator.current_tokens()[0];
        let ghost before = self.generated@;
        self.generated.push(token);
        proof {
            let after = self.generated@;
            assert forall|i: int| 0 <= i < after.len() - 1 implies #[trigger] after[i]
                != self.assistant_end by {
                assert(after[i] == before[i]);
                if i == before.len() - 1 {
                    assert(before.last() == before[i]);
                }
            }
            if old(self).follows(g) {
                let row = g.rows[0];
                let now = generator@.rows[0];
                assert(now == stepped(row, next_ids@[0], g.stop));
                assert(!at_end(now, g.limit)) by {
                    assert(exists|i: int|
                        0 <= i < generator@.rows.len() && !at_end(
                            #[trigger] generator@.rows[i],
                            g.limit,
                        ));
                }
                assert(now.tokens == row.tokens.push(token));
                assert(after =~= now.tokens.subrange(
                    now.tokens.len() - after.len(),
                    now.tokens.len() as int,
                ));
                assert forall|i: int| 0 < i < after.len() implies !g.stop.contains(
                    #[trigger] after[i],
                ) by {
                    if i < before.len() {
                        assert(after[i] == before[i]);
                    }
                }
            }
        }
        Some(token)
    }

    /// The tokens of the reply.
    pub fn as_slice(&self) -> (r: &[TokenId])
        ensures
            r@ == self.tokens(),
    {
        self.generated.as_slice()
    }

    /// The reply as it stands in a conversation, with the token that ends it.
    pub fn into_turn(self) -> (r: Vec<TokenId>)
        requires
            self.wf(),
        ensures
            r@ == closed_off(self.tokens(), self.end()),
            ended_at_most_once(r@, self.end()),
            r@.last() == self.end(),
    {
        let Reply { generated, max_tokens: _, assistant_end, finished: _ } = self;
        let mut turn = generated;
        let n = turn.len();
        if turn[n - 1] != assistant_end {
            turn.push(assistant_end);
            proof {
                assert forall|i: int| 0 <= i < turn@.len() - 1 implies #[trigger] turn@[i]
                    != assistant_end by {
                    assert(turn@[i] == generated@[i]);
                }
            }
        }
        turn
    }
}

/// A reply that begins with the first token of a generation is in step with it.
pub proof fn law_replies_start_in_step(
    reply: Reply,
    prompt: Seq<TokenId>,
    first: TokenId,
    stop: Set<TokenId>,
    limit: nat,
)
    requires
        reply.tokens() == seq![first],
    ensures
        reply.follows(first_generation(prompt, 1, first, stop, limit)),
{
    let tokens = first_generation(prompt, 1, first, stop, limit).rows[0].tokens;
    assert(tokens.subrange(tokens.len() - 1, tokens.len() as int) =~= reply.tokens());
}

/// A reply is what it is after its next token, or ends before it.
pub proof fn law_replies_go_token_by_token(
    tokens: Seq<TokenId>,
    row: Row,
    token: TokenId,
    rest: Seq<TokenId>,
    stop: Set<TokenId>,
    limit: nat,
    max_tokens: int,
    end: TokenId,
)
    requires
        open_ended(tokens, max_tokens, end),
    ensures
        reply_of(tokens, row, seq![token] + rest, stop, limit, max_tokens, end) == ({
            let after = stepped(row, token, stop);
            if at_end(after, limit) {
                tokens
            } else {
                reply_of(tokens.push(token), after, rest, stop, limit, max_tokens, end)
            }
        }),
{
    assert((seq![token] + rest).skip(1) =~= rest);
}

/// A reply begins as it began, takes its further tokens in the order in which they were
/// sampled, has no more than it may, and none after the assistant has ended it; and none
/// of the further tokens ends a sequence.
pub proof fn law_replies(
    tokens: Seq<TokenId>,
    row: Row,
    sampled: Seq<TokenId>,
    stop: Set<TokenId>,
    limit: nat,
    max_tokens: int,
    end: TokenId,
)
    requires
        tokens.len() > 0,
        ended_at_most_once(tokens, end),
        !row.completed,
    ensures
        ({
            let reply = reply_of(tokens, row, sampled, stop, limit, max_tokens, end);
            let n = reply.len() - tokens.len();
            &&& 0 <= n <= sampled.len()
            &&& reply == tokens + sampled.take(n)
            &&& n == 0 || reply.len() <= max_tokens
            &&& ended_at_most_once(reply, end)
            &&& forall|i: int|
                tokens.len() <= i < reply.len() ==> !stop.contains(#[trigger] reply[i])
        }),
    decreases sampled.len(),
{
    let reply = reply_of(tokens, row, sampled, stop, limit, max_tokens, end);
    let ghost same = sampled.len() == 0 || !open_ended(tokens, max_tokens, end) || at_end(
        stepped(row, sampled[0], stop),
        limit,
    );
    if same {
        assert(tokens + sampled.take(0) =~= tokens);
    } else {
        let longer = tokens.push(sampled[0]);
        let after = stepped(row, sampled[0], stop);
        let rest = sampled.skip(1);
        assert forall|i: int| 0 <= i < longer.len() - 1 implies #[trigger] longer[i] != end by {
            assert(longer[i] == tokens[i]);
            if i == tokens.len() - 1 {
                assert(tokens.last() == tokens[i]);
            }
        }
        law_replies(longer, after, rest, stop, limit, max_tokens, end);
        let m = reply.len() - longer.len();
        assert(reply =~= tokens + sampled.take(m + 1));
        assert forall|i: int| tokens.len() <= i < reply.len() implies !stop.contains(
            #[trigger] reply[i],
        ) by {
            if i == tokens.len() {
                assert(reply[i] == sampled[0]);
            }
        }
    }
}

/// A reply does not end early: it has all tokens that were sampled, unless it is as long as
/// it may be, or the assistant has ended it, or the next token ends a sequence, or the
/// sequence is as long with it as a sequence may be.
pub proof fn law_replies_do_not_end_early(
    tokens: Seq<TokenId>,
    row: Row,
    sampled: Seq<TokenId>,
    stop: Set<TokenId>,
    limit: nat,
    max_tokens: int,
    end: TokenId,
)
    requires
        tokens.len() > 0,
        ended_at_most_once(tokens, end),
        !row.completed,
    ensures
        ({
            let reply = reply_of(tokens, row, sampled, stop, limit, max_tokens, end);
            let n = reply.len() - tokens.len();
            0 <= n < sampled.len() ==> {
                ||| reply.len() >= max_tokens
                ||| reply.last() == end
                ||| stop.contains(sampled[n])
                ||| row.tokens.len() + n + 1 >= limit
            }
        }),
    decreases sampled.len(),
{
    law_replies(tokens, row, sampled, stop, limit, max_tokens, end);
    if sampled.len() > 0 && open_ended(tokens, max_tokens, end) && !at_end(
        stepped(row, sampled[0], stop),
        limit,
    ) {
        let longer = tokens.push(sampled[0]);
        let after = stepped(row, sampled[0], stop);
        assert forall|i: int| 0 <= i < longer.len() - 1 implies #[trigger] longer[i] != end by {
            assert(longer[i] == tokens[i]);
            if i == tokens.len() - 1 {
                assert(tokens.last() == tokens[i]);
            }
        }
        law_replies_do_not_end_early(
            longer,
            after,
            sampled.skip(1),
            stop,
            limit,
            max_tokens,
            end,
        );
        law_replies(longer, after, sampled.skip(1), stop, limit, max_tokens, end);
    }
}

/// Another token is wanted exactly if there are fewer than there may be, and the last one
/// does not end the reply.
pub proof fn law_when_more_is_wanted(tokens: Seq<TokenId>, max_tokens: int, end: TokenId)
    requires
        tokens.len() > 0,
    ensures
        open_ended(tokens, max_tokens, end) <==> tokens.len() < max_tokens && tokens[tokens.len()
            - 1] != end,
{
}

/// A reply is closed with the token that ends it, once: what ends with it already stays as
/// it is, and anything else gets it after its last token.
pub proof fn law_replies_are_closed_once(tokens: Seq<TokenId>, end: TokenId)
    requires
        tokens.len() > 0,
    ensures
        tokens[tokens.len() - 1] == end ==> closed_off(tokens, end) == tokens,
        tokens[tokens.len() - 1] != end ==> closed_off(tokens, end) == tokens + seq![end],
        closed_off(closed_off(tokens, end), end) == closed_off(tokens, end),
{
    assert(tokens.push(end) =~= tokens + seq![end]);
}

/// A reply wants another token exactly if its sequence has not come to its end, it has fewer
/// tokens than it may, and its last one is not the one that ends it.
pub proof fn law_replies_want_more(reply: Reply)
    requires
        reply.wf(),
    ensures
        reply.wants() <==> !reply.is_over() && reply.tokens().len() < reply.most()
            && reply.tokens()[reply.tokens().len() - 1] != reply.end(),
{
}

/// A reply gets each token that is sampled after those that it has, up to the one with which
/// generation is over, and wants none after that.
pub proof fn law_replies_get_their_tokens(old: Reply, new: Reply, token: TokenId, over: bool)
    requires
        new.goes_on(&old, token, over),
    ensures
        over ==> new.tokens() == old.tokens() && !new.wants(),
        !over ==> new.tokens() == old.tokens() + seq![token] && !new.is_over(),
        new.most() == old.most() && new.end() == old.end(),
{
    assert(old.tokens().push(token) =~= old.tokens() + seq![token]);
}

} // verus!
