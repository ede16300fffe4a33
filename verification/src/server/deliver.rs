//! Handing tokens to a client without ever waiting for it.
use std::collections::VecDeque;
use vstd::prelude::*;

use crate::server::engine::SubmitError;

verus! {

/// The sending half of a bounded token channel.
#[verifier::external_type_specification]
#[verifier::external_body]
#[verifier::reject_recursive_types(T)]
pub struct ExSender<T>(tokio::sync::mpsc::Sender<T>);

/// Backlog past which a client counts as unable to keep up.
pub const MAX_PENDING_TOKENS: usize = 4096;

/// What became of one token offered to a channel.
#[derive(Clone, Copy, Debug, PartialEq, Eq, Structural)]
pub enum Offer {
    /// The channel took the token.
    Sent,
    /// The channel has no room right now.
    Full,
    /// Nobody reads the channel any more.
    Closed,
}

/// What became of a client's queue.
#[derive(Clone, Copy, Debug, PartialEq, Eq, Structural)]
pub enum Delivery {
    /// The channel is open and the backlog within bounds: keep the sequence.
    Healthy,
    /// The client is gone: stop the sequence.
    Disconnected,
    /// The backlog is past its bound: the client is too slow.
    TooSlow,
}

/// A client's token channel, with a record of every token that was offered to it and
/// of what became of each.
pub struct TokenSender {
    tx: tokio::sync::mpsc::Sender<u32>,
    log: Ghost<Seq<(u32, Offer)>>,
}

impl TokenSender {
    /// The channel.
    pub closed spec fn sender(&self) -> tokio::sync::mpsc::Sender<u32> {
        self.tx
    }

    /// The tokens offered so far, in order, each with what became of it.
    pub closed spec fn log(&self) -> Seq<(u32, Offer)> {
        self.log@
    }

    /// A channel that nothing has been offered to.
    pub fn new(tx: tokio::sync::mpsc::Sender<u32>) -> (s: Self)
        ensures
            s.sender() == tx,
            s.log() == Seq::<(u32, Offer)>::empty(),
    {
        TokenSender { tx, log: Ghost(Seq::empty()) }
    }

    /// The channel.
    pub fn channel(&self) -> (tx: &tokio::sync::mpsc::Sender<u32>)
        ensures
            *tx == self.sender(),
    {
        &self.tx
    }

    /// Offer one token with `tokio::sync::mpsc::Sender::try_send`, which returns at
    /// once. The record grows by that token and what came of it. Which of the three
    /// outcomes that is depends on what the reader has done by then, so nothing is
    /// promised of it.
    #[verifier::external_body]
    fn offer(&mut self, token: u32) -> (o: Offer)
        ensures
            final(self).log() == old(self).log().push((token, o)),
            final(self).sender() == old(self).sender(),
    {
        match self.tx.try_send(token) {
            Ok(()) => Offer::Sent,
            Err(tokio::sync::mpsc::error::TrySendError::Full(_)) => Offer::Full,
            Err(tokio::sync::mpsc::error::TrySendError::Closed(_)) => Offer::Closed,
        }
    }
}

/// The verdict on a queue after a round of offers: `last` is the offer that
/// ended it, `None` where the queue ran empty, and `left` is what is still
/// queued.
pub open spec fn verdict(last: Option<Offer>, left: nat) -> Delivery {
    if last == Some(Offer::Closed) {
        Delivery::Disconnected
    } else if left > MAX_PENDING_TOKENS {
        Delivery::TooSlow
    } else {
        Delivery::Healthy
    }
}

/// Judge a queue after a round of offers.
pub fn judge(last: Option<Offer>, left: usize) -> (d: Delivery)
    ensures
        d == verdict(last, left as nat),
{
    match last {
        Some(Offer::Closed) => Delivery::Disconnected,
        _ => if left > MAX_PENDING_TOKENS {
            Delivery::TooSlow
        } else {
            Delivery::Healthy
        },
    }
}

/// Record what became of the oldest queued token, which was offered to the client:
/// it leaves the queue if the channel took it, and stays where it is otherwise. True
/// if the next one may be offered.
pub fn take_offer(o: Offer, pending: &mut VecDeque<u32>) -> (go: bool)
    requires
        old(pending)@.len() > 0,
    ensures
        go == (o == Offer::Sent),
        final(pending)@ == if o == Offer::Sent {
            old(pending)@.skip(1)
        } else {
            old(pending)@
        },
{
    match o {
        Offer::Sent => {
            let _ = pending.pop_front();
            assert(pending@ =~= old(pending)@.skip(1));
            true
        },
        Offer::Full => false,
        Offer::Closed => false,
    }
}

/// How many tokens a round of offers delivered: all that were offered, but for the
/// last where the channel did not take it.
pub open spec fn sent(made: Seq<(u32, Offer)>) -> nat {
    if made.len() > 0 && made.last().1 != Offer::Sent {
        (made.len() - 1) as nat
    } else {
        made.len()
    }
}

/// What ended a round of offers: the offer that failed, or nothing where the queue ran
/// empty.
pub open spec fn ended_by(made: Seq<(u32, Offer)>) -> Option<Offer> {
    if made.len() > 0 && made.last().1 != Offer::Sent {
        Some(made.last().1)
    } else {
        None
    }
}

/// The round `made` of offers emptied the queue `before` from its front down to
/// `after`, and `d` is the verdict on it. Every token is offered in its turn, and
/// offers go on until one fails or the queue is empty.
pub open spec fn delivered(
    before: Seq<u32>,
    after: Seq<u32>,
    made: Seq<(u32, Offer)>,
    d: Delivery,
) -> bool {
    &&& made.len() <= before.len()
    &&& forall|i: int| 0 <= i < made.len() ==> (#[trigger] made[i]).0 == before[i]
    &&& forall|i: int| 0 <= i < sent(made) ==> (#[trigger] made[i]).1 == Offer::Sent
    &&& ended_by(made) is None ==> made.len() == before.len()
    &&& after == before.skip(sent(made) as int)
    &&& d == verdict(ended_by(made), after.len())
}

/// The tokens that a channel took, in order.
pub open spec fn taken(log: Seq<(u32, Offer)>) -> Seq<u32>
    decreases log.len(),
{
    if log.len() == 0 {
        Seq::empty()
    } else if log.last().1 == Offer::Sent {
        taken(log.drop_last()).push(log.last().0)
    } else {
        taken(log.drop_last())
    }
}

proof fn lemma_taken_concat(a: Seq<(u32, Offer)>, b: Seq<(u32, Offer)>)
    ensures
        taken(a + b) == taken(a) + taken(b),
    decreases b.len(),
{
    if b.len() == 0 {
        assert(a + b =~= a);
    } else {
        lemma_taken_concat(a, b.drop_last());
        assert((a + b).drop_last() =~= a + b.drop_last());
        assert(taken(a + b) =~= taken(a) + taken(b));
    }
}

proof fn lemma_taken_all(before: Seq<u32>, made: Seq<(u32, Offer)>)
    requires
        made.len() <= before.len(),
        forall|i: int| 0 <= i < made.len() ==> (#[trigger] made[i]).0 == before[i],
        forall|i: int| 0 <= i < made.len() ==> (#[trigger] made[i]).1 == Offer::Sent,
    ensures
        taken(made) == before.take(made.len() as int),
    decreases made.len(),
{
    if made.len() > 0 {
        lemma_taken_all(before, made.drop_last());
    }
    assert(taken(made) =~= before.take(made.len() as int));
}

/// Nothing is lost, repeated or reordered on the way to the client: what the channel
/// took before, what a round hands it, and what stays queued are in order what it had
/// taken and what was queued.
pub proof fn law_delivery_moves_the_front_of_the_queue(
    log: Seq<(u32, Offer)>,
    before: Seq<u32>,
    after: Seq<u32>,
    made: Seq<(u32, Offer)>,
    d: Delivery,
)
    requires
        delivered(before, after, made, d),
    ensures
        taken(made) == before.take(sent(made) as int),
        taken(log + made) == taken(log) + before.take(sent(made) as int),
        taken(log + made) + after == taken(log) + before,
{
    let n = sent(made) as int;
    if n < made.len() {
        assert(made.drop_last() =~= made.take(n));
        lemma_taken_all(before, made.drop_last());
    } else {
        lemma_taken_all(before, made);
    }
    lemma_taken_concat(log, made);
    assert(before.take(n) + before.skip(n) =~= before);
    assert(taken(log + made) + after =~= taken(log) + (before.take(n) + before.skip(n)));
}

/// Flush as many queued tokens as the client accepts, without blocking.
///
/// Tokens leave from the front of the queue, so what the client has is always
/// the beginning of what was produced.
pub fn try_deliver(tx: &mut TokenSender, pending: &mut VecDeque<u32>) -> (d: Delivery)
    ensures
        final(tx).sender() == old(tx).sender(),
        final(tx).log().len() >= old(tx).log().len(),
        final(tx).log().take(old(tx).log().len() as int) == old(tx).log(),
        delivered(
            old(pending)@,
            final(pending)@,
            final(tx).log().skip(old(tx).log().len() as int),
            d,
        ),
{
    let ghost before = pending@;
    let ghost log0 = tx.log();
    let ghost mut made: Seq<(u32, Offer)> = Seq::empty();
    let mut last: Option<Offer> = None;
    let mut go = true;
    assert(before.skip(0) =~= before);
    assert(tx.log() =~= log0 + made);
    while go && pending.len() > 0
        invariant
            before == old(pending)@,
            log0 == old(tx).log(),
            tx.sender() == old(tx).sender(),
            tx.log() == log0 + made,
            made.len() <= before.len(),
            forall|i: int| 0 <= i < made.len() ==> (#[trigger] made[i]).0 == before[i],
            forall|i: int| 0 <= i < sent(made) ==> (#[trigger] made[i]).1 == Offer::Sent,
            pending@ == before.skip(sent(made) as int),
            last == ended_by(made),
            go <==> last is None,
            go ==> sent(made) == made.len(),
        decreases pending@.len(), go as int,
    {
        let token: u32 = pending[0];
        let ghost made0 = made;
        let ghost queue0 = pending@;
        assert(token == before[made0.len() as int]);
        let o = tx.offer(token);
        proof {
            made = made0.push((token, o));
            assert(tx.log() =~= log0 + made);
            assert(made.drop_last() =~= made0);
            assert forall|i: int| 0 <= i < sent(made) implies (#[trigger] made[i]).1
                == Offer::Sent by {
                if i < made0.len() {
                    assert(made[i] == made0[i]);
                }
            }
        }
        go = take_offer(o, pending);
        if go {
            assert(pending@ =~= before.skip(sent(made) as int));
        } else {
            last = Some(o);
        }
    }
    let d = judge(last, pending.len());
    assert(tx.log().take(log0.len() as int) =~= log0);
    assert(tx.log().skip(log0.len() as int) =~= made);
    d
}

/// What a client is told of a request offered to the engine's queue: a full queue
/// sheds load, a closed one means that the engine is gone.
pub fn submitted(o: Offer) -> (r: Result<(), SubmitError>)
    ensures
        r == match o {
            Offer::Sent => Ok::<(), SubmitError>(()),
            Offer::Full => Err(SubmitError::Busy),
            Offer::Closed => Err(SubmitError::Shutdown),
        },
{
    match o {
        Offer::Sent => Ok(()),
        Offer::Full => Err(SubmitError::Busy),
        Offer::Closed => Err(SubmitError::Shutdown),
    }
}

/// A client that has hung up is gone, whatever is queued for it; of the others, one is too
/// slow exactly if more than 4096 tokens wait for it.
pub proof fn law_clients_are_judged_by_their_queue(last: Option<Offer>, left: nat)
    ensures
        verdict(last, left) is Disconnected <==> last == Some(Offer::Closed),
        verdict(last, left) is TooSlow <==> last != Some(Offer::Closed) && left > 4096,
{
}

} // verus!
