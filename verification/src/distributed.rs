//! A distributed account and the signing round that obtains a threshold
//! signature from its participants.
//!
//! The library decides; its caller speaks to the signers. A round tells the
//! caller which participant to contact next and with what request, takes
//! that participant's reply, and in the end combines what was collected.

use vstd::prelude::*;
use crate::bls::{public_key_point, BlsPublicKey, BlsSignature};
use crate::endpoint::{participant_url, url_text, Endpoint};
use crate::error::DirkError;
use crate::recover_signature::{
    ids_of, recover_signature_from_shards, recovered_signature, signatures_of, PartialSignature,
};

verus! {

/// The TLS identity with which the participants are contacted. The library
/// keeps it for its caller and reads nothing of it.
#[derive(Clone, Debug)]
pub struct TlsCredentials {
    /// Path to the client certificate.
    pub client_cert_path: String,
    /// Path to the client key.
    pub client_key_path: String,
    /// Path to the certificate authority's certificate, if one is used.
    pub ca_cert_path: Option<String>,
}

/// A distributed account as the account discovery describes it.
#[derive(Clone, Debug)]
pub struct AccountDescriptor {
    /// The serialised composite public key.
    pub composite_public_key: Vec<u8>,
    /// The signers that hold a share of the key, in the order in which they
    /// are to be asked.
    pub participants: Vec<Endpoint>,
    /// How many partial signatures make a composite one.
    pub signing_threshold: u32,
}

/// What every participant of a round is asked to sign.
#[derive(Debug)]
pub struct SigningRequest {
    /// The name of the account to sign with.
    pub account_name: String,
    /// The hash of the message.
    pub message_hash: [u8; 32],
    /// The signing domain, which binds the signature to its context.
    pub domain: [u8; 32],
}

impl Clone for SigningRequest {
    fn clone(&self) -> (copy: Self)
        ensures
            copy == *self,
    {
        SigningRequest {
            account_name: self.account_name.clone(),
            message_hash: self.message_hash,
            domain: self.domain,
        }
    }
}

/// A distributed account: the quorum that signs for one composite key.
#[derive(Debug)]
pub struct DistributedDirkAccount {
    credentials: TlsCredentials,
    participants: Vec<Endpoint>,
    threshold: usize,
    composite_public_key: BlsPublicKey,
}

/// What an account holds.
pub ghost struct AccountView {
    pub credentials: TlsCredentials,
    pub participants: Seq<Endpoint>,
    pub threshold: nat,
    pub composite_public_key: BlsPublicKey,
}

impl View for DistributedDirkAccount {
    type V = AccountView;

    closed spec fn view(&self) -> AccountView {
        AccountView {
            credentials: self.credentials,
            participants: self.participants@,
            threshold: self.threshold as nat,
            composite_public_key: self.composite_public_key,
        }
    }
}

impl DistributedDirkAccount {
    /// Create a new distributed account.
    ///
    /// Succeeds exactly where the descriptor's key bytes are a valid public
    /// key. Participants and threshold are kept as given: the threshold is
    /// not held against the number of participants, nor the ids against
    /// each other. What does not fit shows when a round is finished.
    pub fn new(acc: AccountDescriptor, credentials: TlsCredentials) -> (account: Result<
        Self,
        DirkError,
    >)
        ensures
            account is Ok <==> public_key_point(acc.composite_public_key@) is Some,
            account is Err ==> account == Err::<Self, DirkError>(DirkError::Validation),
            account is Ok ==> {
                let made = account->Ok_0@;
                &&& made.credentials == credentials
                &&& made.participants == acc.participants@
                &&& made.threshold == acc.signing_threshold
                &&& made.composite_public_key.is_valid()
                &&& public_key_point(acc.composite_public_key@) == Some(
                    made.composite_public_key@,
                )
            },
    {
        match BlsPublicKey::from_bytes(acc.composite_public_key.as_slice()) {
            Ok(key) => Ok(
                Self::with_key(acc.participants, acc.signing_threshold, key, credentials),
            ),
            Err(_) => Err(DirkError::Validation),
        }
    }

    /// An account for a key that has been validated already.
    pub fn with_key(
        participants: Vec<Endpoint>,
        signing_threshold: u32,
        composite_public_key: BlsPublicKey,
        credentials: TlsCredentials,
    ) -> (account: Self)
        ensures
            account@ == (AccountView {
                credentials,
                participants: participants@,
                threshold: signing_threshold as nat,
                composite_public_key,
            }),
            composite_public_key.is_valid(),
    {
        proof {
            use_type_invariant(&composite_public_key);
        }
        DistributedDirkAccount {
            credentials,
            composite_public_key,
            participants,
            threshold: signing_threshold as usize,
        }
    }

    /// Obtain the composite public key of the distributed account.
    pub fn composite_public_key(&self) -> (key: &BlsPublicKey)
        ensures
            *key == self@.composite_public_key,
            key.is_valid(),
    {
        proof {
            use_type_invariant(&self.composite_public_key);
        }
        &self.composite_public_key
    }

    /// The credentials with which the participants are contacted.
    pub fn credentials(&self) -> (credentials: &TlsCredentials)
        ensures
            *credentials == self@.credentials,
    {
        &self.credentials
    }

    /// The participants, in the order in which a round asks them.
    pub fn participants(&self) -> (participants: &Vec<Endpoint>)
        ensures
            participants@ == self@.participants,
    {
        &self.participants
    }

    /// How many partial signatures a round needs.
    pub fn threshold(&self) -> (threshold: usize)
        ensures
            threshold == self@.threshold,
    {
        self.threshold
    }
}

/// What the caller of a round is to do next.
#[derive(Debug)]
pub enum RoundStep<'a> {
    /// Ask one participant for its partial signature, over a connection
    /// opened for this one request.
    Contact {
        /// The participant's place in the account's list.
        participant: usize,
        /// The address at which the participant is reached.
        url: String,
        /// The identity with which to connect.
        credentials: &'a TlsCredentials,
        /// What the participant is asked to sign.
        request: SigningRequest,
    },
    /// Nobody is left to ask: the round can be finished.
    Finished,
}

/// What came of asking one participant.
#[derive(Clone, Copy, Debug)]
pub enum SignerReply {
    /// The participant signed.
    Signed(BlsSignature),
    /// The participant could not be reached, refused, or answered what
    /// cannot be read as a signature.
    Failed,
}

/// One signing round of an account: how far down the list of participants
/// it has come and what it has collected.
#[derive(Debug)]
pub struct SigningRound<'a> {
    account: &'a DistributedDirkAccount,
    request: SigningRequest,
    cursor: usize,
    collected: Vec<PartialSignature>,
}

/// What a round holds.
pub ghost struct RoundView {
    pub account: AccountView,
    pub request: SigningRequest,
    /// How many participants have been asked: those before this place in
    /// the account's list, each once.
    pub cursor: nat,
    /// The partial signatures obtained, in the order of the participants.
    pub collected: Seq<PartialSignature>,
}

impl RoundView {
    /// A round that has asked nobody yet.
    pub open spec fn started(account: AccountView, request: SigningRequest) -> RoundView {
        RoundView { account, request, cursor: 0, collected: Seq::empty() }
    }

    /// The participant to ask next: the first one not yet asked, as long as
    /// the threshold has not been reached. `None` when the round is over.
    pub open spec fn pending(self) -> Option<nat> {
        if self.cursor < self.account.participants.len() && self.collected.len()
            < self.account.threshold {
            Some(self.cursor)
        } else {
            None
        }
    }

    /// The round after the pending participant has replied: a signature is
    /// recorded with the participant's id, a failure leaves no trace, and
    /// either way the participant is not asked again. A reply that no
    /// participant was asked for changes nothing.
    pub open spec fn after(self, reply: SignerReply) -> RoundView {
        match self.pending() {
            None => self,
            Some(asked) => RoundView {
                cursor: self.cursor + 1,
                collected: match reply {
                    SignerReply::Signed(signature) => self.collected.push(
                        PartialSignature {
                            signature,
                            participant_id: self.account.participants[asked as int].id,
                        },
                    ),
                    SignerReply::Failed => self.collected,
                },
                ..self
            },
        }
    }

    /// How the round ends with what it has collected.
    pub open spec fn outcome(self) -> Result<Seq<u8>, DirkError> {
        if self.collected.len() < self.account.threshold {
            Err(
                DirkError::InsufficientSignatures {
                    got: self.collected.len() as usize,
                    expected: self.account.threshold as usize,
                },
            )
        } else {
            match recovered_signature(signatures_of(self.collected), ids_of(self.collected)) {
                Some(signature) => Ok(signature),
                None => Err(DirkError::Aggregation),
            }
        }
    }

    /// A round never runs ahead of the list, never collects more than it
    /// has asked for or more than it needs, and what it has collected
    /// carries the ids of participants that were asked.
    pub open spec fn well_formed(self) -> bool {
        &&& self.cursor <= self.account.participants.len()
        &&& self.collected.len() <= self.cursor
        &&& self.collected.len() <= self.account.threshold
        &&& forall|k: int|
            0 <= k < self.collected.len() ==> self.from_asked(#[trigger] self.collected[k])
    }

    /// The share carries the id of a participant that has been asked.
    pub open spec fn from_asked(self, share: PartialSignature) -> bool {
        exists|j: int|
            0 <= j < self.cursor && self.account.participants[j].id == share.participant_id
    }
}

/// Whatever a participant replies, a well-formed round stays well formed.
pub proof fn lemma_after_keeps_well_formed(round: RoundView, reply: SignerReply)
    requires
        round.well_formed(),
    ensures
        round.after(reply).well_formed(),
{
    let next = round.after(reply);
    assert forall|k: int| 0 <= k < next.collected.len() implies next.from_asked(
        #[trigger] next.collected[k],
    ) by {
        if k < round.collected.len() {
            assert(round.from_asked(round.collected[k]));
            let j = choose|j: int|
                0 <= j < round.cursor && round.account.participants[j].id
                    == round.collected[k].participant_id;
            assert(0 <= j < next.cursor);
        } else {
            assert(0 <= round.cursor < next.cursor);
        }
    }
}

/// Once the threshold is reached nobody is asked any more, and no reply
/// changes the round.
pub proof fn lemma_quorum_ends_round(round: RoundView, reply: SignerReply)
    requires
        round.collected.len() >= round.account.threshold,
    ensures
        round.pending() is None,
        round.after(reply) == round,
{
}

impl<'a> View for SigningRound<'a> {
    type V = RoundView;

    closed spec fn view(&self) -> RoundView {
        RoundView {
            account: self.account@,
            request: self.request,
            cursor: self.cursor as nat,
            collected: self.collected@,
        }
    }
}

impl DistributedDirkAccount {
    /// Begins a round in which the participants are asked to sign
    /// `message_hash` under `domain` with the account `account_name`.
    pub fn begin_round(
        &self,
        account_name: String,
        message_hash: [u8; 32],
        domain: [u8; 32],
    ) -> (round: SigningRound<'_>)
        ensures
            round@ == RoundView::started(
                self@,
                SigningRequest { account_name, message_hash, domain },
            ),
            round@.well_formed(),
    {
        SigningRound {
            account: self,
            request: SigningRequest { account_name, message_hash, domain },
            cursor: 0,
            collected: Vec::new(),
        }
    }
}

impl<'a> SigningRound<'a> {
    #[verifier::type_invariant]
    spec fn holds_together(self) -> bool {
        self@.well_formed()
    }

    /// What to do next: contact the pending participant, or finish.
    ///
    /// Participants are asked in the account's order, one at a time, each
    /// with the account's credentials and the same request, and none once
    /// the threshold is reached.
    pub fn next_step(&self) -> (step: RoundStep<'a>)
        ensures
            match self@.pending() {
                None => step is Finished,
                Some(asked) => {
                    &&& step is Contact
                    &&& step->participant == asked
                    &&& step->url@ == url_text(
                        self@.account.participants[asked as int].name@,
                        self@.account.participants[asked as int].port,
                    )
                    &&& *step->credentials == self@.account.credentials
                    &&& step->request == self@.request
                },
            },
    {
        proof {
            use_type_invariant(self);
        }
        if self.cursor < self.account.participants.len() && self.collected.len()
            < self.account.threshold {
            RoundStep::Contact {
                participant: self.cursor,
                url: participant_url(&self.account.participants[self.cursor]),
                credentials: &self.account.credentials,
                request: self.request.clone(),
            }
        } else {
            RoundStep::Finished
        }
    }

    /// The round after the participant that `next_step` named has replied.
    pub fn record_reply(self, reply: SignerReply) -> (next: SigningRound<'a>)
        ensures
            next@ == self@.after(reply),
            next@.well_formed(),
    {
        proof {
            use_type_invariant(&self);
        }
        if self.cursor < self.account.participants.len() && self.collected.len()
            < self.account.threshold {
            let SigningRound { account, request, cursor, mut collected } = self;
            match reply {
                SignerReply::Signed(signature) => {
                    let share = PartialSignature {
                        signature,
                        participant_id: account.participants[cursor].id,
                    };
                    collected.push(share);
                },
                SignerReply::Failed => {},
            }
            proof {
                lemma_after_keeps_well_formed(self@, reply);
            }
            SigningRound { account, request, cursor: cursor + 1, collected }
        } else {
            self
        }
    }

    /// Ends the round: an insufficiency error where fewer partial
    /// signatures than the threshold were collected; otherwise the
    /// composite signature, or an aggregation error where the partial
    /// signatures do not combine.
    pub fn finish(self) -> (result: Result<BlsSignature, DirkError>)
        ensures
            match self@.outcome() {
                Ok(signature) => result is Ok && result->Ok_0@ == signature,
                Err(error) => result == Err::<BlsSignature, DirkError>(error),
            },
    {
        let got = self.collected.len();
        let expected = self.account.threshold;
        if got < expected {
            return round_result(got, expected, None);
        }
        let mut sigs: Vec<BlsSignature> = Vec::new();
        let mut ids: Vec<u64> = Vec::new();
        let mut k: usize = 0;
        while k < self.collected.len()
            invariant
                k <= self.collected@.len(),
                sigs@ == signatures_of(self.collected@).take(k as int),
                ids@ == ids_of(self.collected@).take(k as int),
            decreases self.collected@.len() - k,
        {
            sigs.push(self.collected[k].signature);
            ids.push(self.collected[k].participant_id);
            proof {
                assert(sigs@ =~= signatures_of(self.collected@).take(k + 1));
                assert(ids@ =~= ids_of(self.collected@).take(k + 1));
            }
            k += 1;
        }
        proof {
            assert(sigs@ =~= signatures_of(self.collected@));
            assert(ids@ =~= ids_of(self.collected@));
        }
        round_result(got, expected, recover_signature_from_shards(sigs.as_slice(), ids.as_slice()))
    }
}

/// What a round comes to that collected `got` partial signatures where
/// `expected` were needed, and whose combination gave `recovered`: too few
/// are an insufficiency error whatever `recovered` is; of enough, the
/// combination is the result, and its failure an aggregation error.
pub fn round_result(got: usize, expected: usize, recovered: Option<BlsSignature>) -> (result:
    Result<BlsSignature, DirkError>)
    ensures
        result == if got < expected {
            Err::<BlsSignature, DirkError>(DirkError::InsufficientSignatures { got, expected })
        } else {
            match recovered {
                Some(signature) => Ok(signature),
                None => Err(DirkError::Aggregation),
            }
        },
{
    if got < expected {
        Err(DirkError::InsufficientSignatures { got, expected })
    } else {
        match recovered {
            Some(signature) => Ok(signature),
            None => Err(DirkError::Aggregation),
        }
    }
}

} // verus!
