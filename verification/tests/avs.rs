use alloy_primitives::keccak256;
use unifi_rollup::avs::{
    decode_bool_reply, get_operator_call, get_validator_by_hash_call,
    get_validator_by_index_call, get_validators_by_hashes_call,
    is_validator_hash_in_chain_id_call, validator_key_hash, validator_key_hashes,
    UniFiAVSManagerError, UniFiAVSManagerWrapper,
};
use unifi_rollup::primitives::{u64_to_word, word_to_u64};

fn validator_key(n: u8) -> [u8; 48] {
    let mut key = [0u8; 48];
    for (i, byte) in key.iter_mut().enumerate() {
        *byte = n.wrapping_add(i as u8);
    }
    key
}

#[test]
fn errors_have_their_words() {
    assert_eq!(
        UniFiAVSManagerError::RPCError("timed out".to_string()).message(),
        "RPC error: timed out"
    );
    assert_eq!(UniFiAVSManagerError::RPCError(String::new()).message(), "RPC error: ");
    assert_eq!(UniFiAVSManagerError::RegistrationExpired.message(), "Registration expired");
    assert_eq!(UniFiAVSManagerError::InvalidOperatorSalt.message(), "Invalid operator salt");
    assert_eq!(UniFiAVSManagerError::SignatureExpired.message(), "Signature expired");
    assert_eq!(UniFiAVSManagerError::OperatorHasValidators.message(), "Operator has validators");
    assert_eq!(UniFiAVSManagerError::NotOperator.message(), "Not operator");
    assert_eq!(UniFiAVSManagerError::NoEigenPod.message(), "No EigenPod");
    assert_eq!(
        UniFiAVSManagerError::DeregistrationDelayNotElapsed.message(),
        "Deregistration delay not elapsed"
    );
    assert_eq!(
        UniFiAVSManagerError::DeregistrationAlreadyStarted.message(),
        "Deregistration already started"
    );
    assert_eq!(
        UniFiAVSManagerError::DeregistrationNotStarted.message(),
        "Deregistration not started"
    );
    assert_eq!(
        UniFiAVSManagerError::NotDelegatedToOperator.message(),
        "Not delegated to operator"
    );
    assert_eq!(UniFiAVSManagerError::ValidatorNotActive.message(), "Validator not active");
    assert_eq!(UniFiAVSManagerError::OperatorAlreadyExists.message(), "Operator already exists");
    assert_eq!(UniFiAVSManagerError::OperatorNotRegistered.message(), "Operator not registered");
    assert_eq!(
        UniFiAVSManagerError::OperatorAlreadyRegistered.message(),
        "Operator already registered"
    );
    assert_eq!(UniFiAVSManagerError::NotValidatorOperator.message(), "Not validator operator");
    assert_eq!(
        UniFiAVSManagerError::ValidatorAlreadyRegistered.message(),
        "Validator already registered"
    );
    assert_eq!(UniFiAVSManagerError::DelegateKeyNotSet.message(), "Delegate key not set");
    assert_eq!(UniFiAVSManagerError::InvalidOperator.message(), "Invalid operator");
    assert_eq!(UniFiAVSManagerError::NotPodOwner.message(), "Not pod owner");
    assert_eq!(UniFiAVSManagerError::ValidatorNotFound.message(), "Validator not found");
    assert_eq!(UniFiAVSManagerError::Unauthorized.message(), "Unauthorized");
    assert_eq!(UniFiAVSManagerError::InvalidAddress.message(), "Invalid address");
    assert_eq!(UniFiAVSManagerError::InvalidAmount.message(), "Invalid amount");
    assert_eq!(
        UniFiAVSManagerError::DelegateKeyChangeNotReady.message(),
        "Delegate key change not ready"
    );
    assert_eq!(
        UniFiAVSManagerError::CommitmentChangeNotReady.message(),
        "Commitment change not ready"
    );
}

#[test]
fn wrapper_keeps_address_and_endpoint() {
    let wrapper = UniFiAVSManagerWrapper::new([0x5c; 20], "http://localhost:8545".to_string());
    assert_eq!(wrapper.address(), [0x5c; 20]);
    assert_eq!(wrapper.rpc_url(), "http://localhost:8545");
}

#[test]
fn validator_is_known_by_the_digest_of_its_key() {
    let key = validator_key(0xb3);
    assert_eq!(validator_key_hash(&key), keccak256(key).0);
    assert_ne!(validator_key_hash(&key), validator_key_hash(&validator_key(0x80)));
    assert_ne!(&validator_key_hash(&key)[..], &key[..32]);
}

#[test]
fn digest_of_the_empty_string_is_the_known_one() {
    // Keccak-256 of 48 zero bytes, from the function itself, and the
    // well-known digest of the empty string for the function behind it.
    assert_eq!(
        keccak256([]).0[..4],
        [0xc5, 0xd2, 0x46, 0x01],
    );
    assert_eq!(validator_key_hash(&[0u8; 48]), keccak256([0u8; 48]).0);
}

#[test]
fn validators_are_hashed_in_their_order() {
    let keys = vec![validator_key(1), validator_key(2), validator_key(1)];
    let hashes = validator_key_hashes(&keys);
    assert_eq!(hashes.len(), 3);
    assert_eq!(hashes[0], keccak256(keys[0]).0);
    assert_eq!(hashes[1], keccak256(keys[1]).0);
    assert_eq!(hashes[2], hashes[0]);
    assert!(validator_key_hashes(&Vec::new()).is_empty());
}

fn word(n: u64) -> [u8; 32] {
    let mut w = [0u8; 32];
    w[24..].copy_from_slice(&n.to_be_bytes());
    w
}

fn selector(signature: &str) -> Vec<u8> {
    keccak256(signature)[..4].to_vec()
}

#[test]
fn numbers_are_written_as_big_endian_words() {
    for n in [0u64, 1, 255, 256, 1300, 0x11111111, 0x0102030405060708, u64::MAX - 1, u64::MAX] {
        assert_eq!(u64_to_word(n), word(n));
        assert_eq!(word_to_u64(&u64_to_word(n)), Some(n));
    }
}

#[test]
fn get_operator_call_is_selector_and_padded_address() {
    let operator = [0xa8; 20];
    let mut expected = selector("getOperator(address)");
    expected.extend_from_slice(&[0u8; 12]);
    expected.extend_from_slice(&operator);
    assert_eq!(get_operator_call(&operator), expected);
}

#[test]
fn get_validator_calls_are_selector_and_word() {
    let hash = [0x5a; 32];
    let mut by_hash = selector("getValidator(bytes32)");
    by_hash.extend_from_slice(&hash);
    assert_eq!(get_validator_by_hash_call(&hash), by_hash);

    let mut by_index = selector("getValidator(uint256)");
    by_index.extend_from_slice(&word(1300));
    assert_eq!(get_validator_by_index_call(1300), by_index);
    assert_ne!(get_validator_by_index_call(1300), get_validator_by_index_call(1301));
}

#[test]
fn get_validators_call_carries_offset_length_and_hashes() {
    let hashes = vec![[0x01; 32], [0x02; 32], [0x03; 32]];
    let mut expected = selector("getValidators(bytes32[])");
    expected.extend_from_slice(&word(32));
    expected.extend_from_slice(&word(3));
    for hash in &hashes {
        expected.extend_from_slice(hash);
    }
    assert_eq!(get_validators_by_hashes_call(&hashes), expected);

    let mut empty = selector("getValidators(bytes32[])");
    empty.extend_from_slice(&word(32));
    empty.extend_from_slice(&word(0));
    assert_eq!(get_validators_by_hashes_call(&Vec::new()), empty);
}

#[test]
fn is_validator_in_chain_id_call_carries_hash_and_chain() {
    let hash = [0x7c; 32];
    let mut expected = selector("isValidatorInChainId(bytes32,uint256)");
    expected.extend_from_slice(&hash);
    expected.extend_from_slice(&word(0x11111111));
    assert_eq!(is_validator_hash_in_chain_id_call(&hash, 0x11111111), expected);
}

#[test]
fn boolean_reply_is_one_word_of_zero_or_one() {
    assert_eq!(decode_bool_reply(&word(1)), Some(true));
    assert_eq!(decode_bool_reply(&word(0)), Some(false));
    assert_eq!(decode_bool_reply(&word(2)), None);
    assert_eq!(decode_bool_reply(&[0xff; 32]), None);
    assert_eq!(decode_bool_reply(&[]), None);
    assert_eq!(decode_bool_reply(&word(1)[..31]), None);
    let mut long = word(1).to_vec();
    long.push(0);
    assert_eq!(decode_bool_reply(&long), None);
    let mut high = word(1);
    high[0] = 1;
    assert_eq!(decode_bool_reply(&high), None);
}
