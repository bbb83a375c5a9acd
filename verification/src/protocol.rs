//! What a signing round comes to, whatever its participants do.
//!
//! A round is driven step by step: whoever is pending is asked and replies.
//! Taken together the steps amount to this: the participants are asked in
//! their order until as many have signed as the threshold demands; those
//! that fail are passed over; and if the list ends before the threshold is
//! reached, the round fails for want of signatures.

use vstd::prelude::*;
use crate::distributed::{AccountView, RoundView, SignerReply, SigningRequest};
use crate::endpoint::Endpoint;
use crate::error::DirkError;
use crate::recover_signature::{ids_of, recovered_signature, signatures_of, PartialSignature};

verus! {

/// The round one step on, where the participant at the place `i` replies
/// `replies[i]` when asked. A round that is over stays as it is.
pub open spec fn stepped(round: RoundView, replies: Seq<SignerReply>) -> RoundView {
    match round.pending() {
        Some(asked) => round.after(replies[asked as int]),
        None => round,
    }
}

/// The round `steps` steps on.
pub open spec fn driven(round: RoundView, replies: Seq<SignerReply>, steps: nat) -> RoundView
    decreases steps,
{
    if steps == 0 {
        round
    } else {
        stepped(driven(round, replies, (steps - 1) as nat), replies)
    }
}

/// The partial signatures that the first `n` participants give if each of
/// them is asked, in the participants' order.
pub open spec fn signed_by(participants: Seq<Endpoint>, replies: Seq<SignerReply>, n: int) -> Seq<
    PartialSignature,
>
    decreases n,
{
    if n <= 0 {
        Seq::empty()
    } else {
        let before = signed_by(participants, replies, n - 1);
        match replies[n - 1] {
            SignerReply::Signed(signature) => before.push(
                PartialSignature { signature, participant_id: participants[n - 1].id },
            ),
            SignerReply::Failed => before,
        }
    }
}

/// What fewer participants give is the beginning of what more give.
proof fn lemma_signed_by_grows(
    participants: Seq<Endpoint>,
    replies: Seq<SignerReply>,
    c: int,
    n: int,
)
    requires
        0 <= c <= n,
    ensures
        signed_by(participants, replies, c).len() <= signed_by(participants, replies, n).len(),
        signed_by(participants, replies, n).take(
            signed_by(participants, replies, c).len() as int,
        ) == signed_by(participants, replies, c),
    decreases n - c,
{
    let short = signed_by(participants, replies, c);
    if c == n {
        assert(short.take(short.len() as int) =~= short);
    } else {
        lemma_signed_by_grows(participants, replies, c, n - 1);
        let before = signed_by(participants, replies, n - 1);
        let all = signed_by(participants, replies, n);
        assert(all.take(short.len() as int) =~= before.take(short.len() as int));
    }
}

/// How far a round has come after `k` steps from its start.
proof fn lemma_driven_steps(
    account: AccountView,
    request: SigningRequest,
    replies: Seq<SignerReply>,
    k: nat,
)
    requires
        replies.len() == account.participants.len(),
        k <= account.participants.len(),
    ensures
        ({
            let round = driven(RoundView::started(account, request), replies, k);
            &&& round.account == account
            &&& round.request == request
            &&& round.cursor <= k
            &&& round.cursor == k || round.pending() is None
            &&& round.collected == signed_by(account.participants, replies, round.cursor as int)
            &&& round.collected.len() <= account.threshold
            &&& round.cursor > 0 ==> signed_by(
                account.participants,
                replies,
                round.cursor - 1,
            ).len() < account.threshold
        }),
    decreases k,
{
    if k > 0 {
        lemma_driven_steps(account, request, replies, (k - 1) as nat);
        let before = driven(RoundView::started(account, request), replies, (k - 1) as nat);
        let round = driven(RoundView::started(account, request), replies, k);
        assert(round == stepped(before, replies));
        if before.pending() is Some {
            assert(round.cursor == before.cursor + 1);
            assert(round.collected == signed_by(account.participants, replies, round.cursor as int));
        }
    }
}

/// What a round comes to when it is driven from its start until nobody is
/// pending, the participant at the place `i` replying `replies[i]` if asked.
///
/// Of the partial signatures that the participants would give, the round
/// collects the first ones up to the threshold, and asks nobody after the
/// participant that gave the last of them. If they are fewer than the
/// threshold, everybody has been asked and the round ends for want of
/// signatures, with the number obtained; otherwise it ends as the
/// combination of those it collected does.
pub proof fn lemma_round_outcome(
    account: AccountView,
    request: SigningRequest,
    replies: Seq<SignerReply>,
)
    requires
        replies.len() == account.participants.len(),
    ensures
        ({
            let n = account.participants.len();
            let end = driven(RoundView::started(account, request), replies, n);
            let all = signed_by(account.participants, replies, n as int);
            let first = all.take(account.threshold as int);
            &&& end.pending() is None
            &&& end.cursor <= n
            &&& end.collected == signed_by(account.participants, replies, end.cursor as int)
            &&& end.cursor > 0 ==> signed_by(account.participants, replies, end.cursor - 1).len()
                < account.threshold
            &&& all.len() < account.threshold ==> {
                &&& end.cursor == n
                &&& end.collected == all
                &&& end.outcome() == Err::<Seq<u8>, DirkError>(
                    DirkError::InsufficientSignatures {
                        got: all.len() as usize,
                        expected: account.threshold as usize,
                    },
                )
            }
            &&& all.len() >= account.threshold ==> {
                &&& end.collected == first
                &&& end.outcome() == match recovered_signature(
                    signatures_of(first),
                    ids_of(first),
                ) {
                    Some(signature) => Ok::<Seq<u8>, DirkError>(signature),
                    None => Err(DirkError::Aggregation),
                }
            }
        }),
{
    let n = account.participants.len();
    let end = driven(RoundView::started(account, request), replies, n);
    let all = signed_by(account.participants, replies, n as int);
    lemma_driven_steps(account, request, replies, n);
    lemma_signed_by_grows(account.participants, replies, end.cursor as int, n as int);
    if end.cursor == n {
        assert(all.take(all.len() as int) =~= all);
    }
}

} // verus!
