use blst::min_pk::{PublicKey, SecretKey, Signature};
use blst::BLST_ERROR;
use bolt_dirk::bls::{BlsPublicKey, BlsSignature};
use bolt_dirk::distributed::{
    round_result, AccountDescriptor, DistributedDirkAccount, RoundStep, SignerReply,
    TlsCredentials,
};
use bolt_dirk::endpoint::Endpoint;
use bolt_dirk::error::DirkError;

const DST: &[u8] = b"BLS_SIG_BLS12381G2_XMD:SHA-256_SSWU_RO_POP_";
const HASH: [u8; 32] = [0xab; 32];
const DOMAIN: [u8; 32] = [0x07; 32];

fn signer_key(value: u64) -> SecretKey {
    let mut bytes = [0u8; 32];
    bytes[24..].copy_from_slice(&value.to_be_bytes());
    SecretKey::from_bytes(&bytes).unwrap()
}

/// What the signer with this id returns for the request: its share of the
/// key 5, shared by the polynomial 5 + 7x, over hash and domain.
fn partial_signature(id: u64) -> BlsSignature {
    let message = [HASH, DOMAIN].concat();
    BlsSignature { bytes: signer_key(5 + 7 * id).sign(&message, DST, &[]).to_bytes() }
}

fn composite_key() -> PublicKey {
    signer_key(5).sk_to_pk()
}

fn credentials() -> TlsCredentials {
    TlsCredentials {
        client_cert_path: "client.crt".to_string(),
        client_key_path: "client.key".to_string(),
        ca_cert_path: Some("ca.crt".to_string()),
    }
}

fn participants() -> Vec<Endpoint> {
    vec![
        Endpoint { name: "a.example".to_string(), port: 9091, id: 1 },
        Endpoint { name: "b.example".to_string(), port: 9092, id: 2 },
        Endpoint { name: "c.example".to_string(), port: 9093, id: 3 },
    ]
}

fn account(threshold: u32) -> DistributedDirkAccount {
    let descriptor = AccountDescriptor {
        composite_public_key: composite_key().to_bytes().to_vec(),
        participants: participants(),
        signing_threshold: threshold,
    };
    DistributedDirkAccount::new(descriptor, credentials()).unwrap()
}

/// Runs a round in which the participants answer as `answers` says, and
/// returns which were contacted, in order, with the round's result.
fn run_round(
    account: &DistributedDirkAccount,
    answers: &[bool],
) -> (Vec<usize>, Result<BlsSignature, DirkError>) {
    let mut contacted = Vec::new();
    let mut round = account.begin_round("Wallet/Account".to_string(), HASH, DOMAIN);
    loop {
        match round.next_step() {
            RoundStep::Contact { participant, url, credentials, request } => {
                let endpoint = &account.participants()[participant];
                assert_eq!(credentials.client_key_path, "client.key");
                assert_eq!(credentials.ca_cert_path, Some("ca.crt".to_string()));
                assert_eq!(url, format!("https://{}:{}", endpoint.name, endpoint.port));
                assert_eq!(request.account_name, "Wallet/Account");
                assert_eq!(request.message_hash, HASH);
                assert_eq!(request.domain, DOMAIN);
                contacted.push(participant);
                let reply = if answers[participant] {
                    SignerReply::Signed(partial_signature(endpoint.id))
                } else {
                    SignerReply::Failed
                };
                round = round.record_reply(reply);
            }
            RoundStep::Finished => break,
        }
    }
    (contacted, round.finish())
}

fn verifies_under_the_composite_key(signature: &BlsSignature) -> bool {
    let message = [HASH, DOMAIN].concat();
    Signature::from_bytes(&signature.bytes).unwrap().verify(
        true,
        &message,
        DST,
        &[],
        &composite_key(),
        true,
    ) == BLST_ERROR::BLST_SUCCESS
}

#[test]
fn construction_accepts_a_compressed_key() {
    let key = composite_key();
    let account = account(2);
    assert_eq!(account.composite_public_key().to_bytes(), key.to_bytes());
    assert_eq!(account.threshold(), 2);
    assert_eq!(account.participants().len(), 3);
    assert_eq!(account.participants()[1].name, "b.example");
    assert_eq!(account.participants()[2].id, 3);
    assert_eq!(account.credentials().client_cert_path, "client.crt");
    assert_eq!(account.credentials().ca_cert_path, Some("ca.crt".to_string()));
}

#[test]
fn construction_accepts_an_uncompressed_key_and_holds_the_same_point() {
    let key = composite_key();
    let descriptor = AccountDescriptor {
        composite_public_key: key.serialize().to_vec(),
        participants: participants(),
        signing_threshold: 2,
    };
    let account = DistributedDirkAccount::new(descriptor, credentials()).unwrap();
    assert_eq!(account.composite_public_key().to_bytes(), key.compress());
}

#[test]
fn construction_rejects_malformed_keys() {
    let key = composite_key().to_bytes();
    let mut candidates: Vec<Vec<u8>> = vec![
        vec![],
        vec![0u8; 48],
        vec![0xffu8; 48],
        key[..47].to_vec(),
        [key.to_vec(), vec![0u8]].concat(),
    ];
    // the point at infinity is a point, but no key
    let mut infinity = vec![0u8; 48];
    infinity[0] = 0xc0;
    candidates.push(infinity);
    // an x-coordinate with no point on the curve, or one outside the subgroup
    let mut off = key.to_vec();
    off[47] ^= 0x01;
    if PublicKey::key_validate(&off).is_err() {
        candidates.push(off);
    }
    for bytes in candidates {
        let descriptor = AccountDescriptor {
            composite_public_key: bytes,
            participants: participants(),
            signing_threshold: 2,
        };
        let made = DistributedDirkAccount::new(descriptor, credentials());
        assert!(matches!(made, Err(DirkError::Validation)));
    }
}

#[test]
fn construction_does_not_hold_the_threshold_against_the_participants() {
    assert_eq!(account(7).threshold(), 7);
    assert_eq!(account(0).threshold(), 0);
    let descriptor = AccountDescriptor {
        composite_public_key: composite_key().to_bytes().to_vec(),
        participants: vec![],
        signing_threshold: 1,
    };
    assert!(DistributedDirkAccount::new(descriptor, credentials()).is_ok());
}

#[test]
fn public_key_parsing_agrees_with_the_curve_library() {
    let key = composite_key();
    assert_eq!(BlsPublicKey::from_bytes(&key.to_bytes()).unwrap().to_bytes(), key.to_bytes());
    assert_eq!(BlsPublicKey::from_bytes(&key.serialize()).unwrap().to_bytes(), key.to_bytes());
    assert!(BlsPublicKey::from_bytes(&[0u8; 48]).is_err());
    assert!(BlsPublicKey::from_bytes(&[0u8; 96]).is_err());
    assert!(BlsPublicKey::from_bytes(&[]).is_err());
}

#[test]
fn round_exits_early_once_the_threshold_is_reached() {
    let account = account(2);
    let (contacted, result) = run_round(&account, &[true, true, true]);
    assert_eq!(contacted, vec![0, 1]);
    assert!(verifies_under_the_composite_key(&result.unwrap()));
}

#[test]
fn round_tolerates_a_failing_participant() {
    let account = account(2);
    let (contacted, result) = run_round(&account, &[false, true, true]);
    assert_eq!(contacted, vec![0, 1, 2]);
    let signature = result.unwrap();
    let expected = bolt_dirk::recover_signature::recover_signature_from_shards(
        &[partial_signature(2), partial_signature(3)],
        &[2, 3],
    );
    assert_eq!(Some(signature), expected);
    assert!(verifies_under_the_composite_key(&signature));
}

#[test]
fn round_fails_when_too_few_participants_sign() {
    let account = account(2);
    let (contacted, result) = run_round(&account, &[true, false, false]);
    assert_eq!(contacted, vec![0, 1, 2]);
    assert_eq!(result, Err(DirkError::InsufficientSignatures { got: 1, expected: 2 }));
}

#[test]
fn round_in_which_nobody_signs() {
    let account = account(2);
    let (contacted, result) = run_round(&account, &[false, false, false]);
    assert_eq!(contacted, vec![0, 1, 2]);
    assert_eq!(result, Err(DirkError::InsufficientSignatures { got: 0, expected: 2 }));
}

#[test]
fn round_with_a_threshold_above_the_participants() {
    let account = account(4);
    let (contacted, result) = run_round(&account, &[true, true, true]);
    assert_eq!(contacted, vec![0, 1, 2]);
    assert_eq!(result, Err(DirkError::InsufficientSignatures { got: 3, expected: 4 }));
}

#[test]
fn round_with_threshold_zero_asks_nobody_and_cannot_combine() {
    let account = account(0);
    let (contacted, result) = run_round(&account, &[true, true, true]);
    assert_eq!(contacted, Vec::<usize>::new());
    assert_eq!(result, Err(DirkError::Aggregation));
}

#[test]
fn round_fails_to_aggregate_what_is_no_signature() {
    let account = account(2);
    let mut round = account.begin_round("Wallet/Account".to_string(), HASH, DOMAIN);
    round = round.record_reply(SignerReply::Signed(BlsSignature { bytes: [0x11; 96] }));
    round = round.record_reply(SignerReply::Signed(partial_signature(2)));
    assert!(matches!(round.next_step(), RoundStep::Finished));
    assert_eq!(round.finish(), Err(DirkError::Aggregation));
}

#[test]
fn round_fails_to_aggregate_when_participants_share_an_id() {
    let descriptor = AccountDescriptor {
        composite_public_key: composite_key().to_bytes().to_vec(),
        participants: vec![
            Endpoint { name: "a.example".to_string(), port: 9091, id: 2 },
            Endpoint { name: "b.example".to_string(), port: 9092, id: 2 },
        ],
        signing_threshold: 2,
    };
    let account = DistributedDirkAccount::new(descriptor, credentials()).unwrap();
    let (contacted, result) = run_round(&account, &[true, true]);
    assert_eq!(contacted, vec![0, 1]);
    assert_eq!(result, Err(DirkError::Aggregation));
}

#[test]
fn round_ignores_a_reply_that_nobody_was_asked_for() {
    let account = account(1);
    let mut round = account.begin_round("Wallet/Account".to_string(), HASH, DOMAIN);
    round = round.record_reply(SignerReply::Signed(partial_signature(1)));
    assert!(matches!(round.next_step(), RoundStep::Finished));
    round = round.record_reply(SignerReply::Signed(partial_signature(2)));
    round = round.record_reply(SignerReply::Failed);
    assert!(matches!(round.next_step(), RoundStep::Finished));
    assert_eq!(round.finish(), Ok(partial_signature(1)));
}

#[test]
fn round_abandoned_early_ends_as_insufficient() {
    let account = account(2);
    let mut round = account.begin_round("Wallet/Account".to_string(), HASH, DOMAIN);
    round = round.record_reply(SignerReply::Signed(partial_signature(1)));
    assert_eq!(round.finish(), Err(DirkError::InsufficientSignatures { got: 1, expected: 2 }));
}

#[test]
fn rounds_of_one_account_do_not_interfere() {
    let account = account(2);
    let mut first = account.begin_round("Wallet/Account".to_string(), HASH, DOMAIN);
    let mut second = account.begin_round("Wallet/Account".to_string(), HASH, DOMAIN);
    first = first.record_reply(SignerReply::Failed);
    second = second.record_reply(SignerReply::Signed(partial_signature(1)));
    first = first.record_reply(SignerReply::Signed(partial_signature(2)));
    second = second.record_reply(SignerReply::Signed(partial_signature(2)));
    assert!(matches!(second.next_step(), RoundStep::Finished));
    assert!(matches!(first.next_step(), RoundStep::Contact { participant: 2, .. }));
    first = first.record_reply(SignerReply::Signed(partial_signature(3)));
    let one = first.finish().unwrap();
    let other = second.finish().unwrap();
    assert_eq!(one, other);
    assert!(verifies_under_the_composite_key(&one));
}

#[test]
fn account_for_a_validated_key() {
    let key = BlsPublicKey::from_bytes(&composite_key().serialize()).unwrap();
    let account = DistributedDirkAccount::with_key(participants(), 2, key, credentials());
    assert_eq!(account.composite_public_key().to_bytes(), composite_key().to_bytes());
    assert_eq!(account.threshold(), 2);
    assert_eq!(account.participants().len(), 3);
    let (contacted, result) = run_round(&account, &[true, false, true]);
    assert_eq!(contacted, vec![0, 1, 2]);
    assert!(verifies_under_the_composite_key(&result.unwrap()));
}

#[test]
fn round_result_by_cases() {
    let signature = partial_signature(1);
    assert_eq!(round_result(2, 2, Some(signature)), Ok(signature));
    assert_eq!(round_result(3, 2, Some(signature)), Ok(signature));
    assert_eq!(round_result(2, 2, None), Err(DirkError::Aggregation));
    assert_eq!(round_result(0, 0, None), Err(DirkError::Aggregation));
    assert_eq!(
        round_result(1, 2, None),
        Err(DirkError::InsufficientSignatures { got: 1, expected: 2 })
    );
    assert_eq!(
        round_result(1, 2, Some(signature)),
        Err(DirkError::InsufficientSignatures { got: 1, expected: 2 })
    );
}
