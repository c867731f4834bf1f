//! The registry of operators and validators: its errors, the address of a
//! registry, the hashes by which it knows the validators, and the calls that
//! read from it.

use crate::digest::{keccak256, keccak256_digest};
use crate::primitives::{be_value, read_bytes32, u64_to_word, word_to_u64};
use vstd::prelude::*;

verus! {

/// Errors that can occur when interacting with the UniFiAVSManager contract.
#[derive(Clone, Debug, PartialEq, Eq)]
pub enum UniFiAVSManagerError {
    /// The call did not get through; the text says why.
    RPCError(String),
    RegistrationExpired,
    InvalidOperatorSalt,
    SignatureExpired,
    OperatorHasValidators,
    NotOperator,
    NoEigenPod,
    DeregistrationDelayNotElapsed,
    DeregistrationAlreadyStarted,
    DeregistrationNotStarted,
    NotDelegatedToOperator,
    ValidatorNotActive,
    OperatorAlreadyExists,
    OperatorNotRegistered,
    OperatorAlreadyRegistered,
    NotValidatorOperator,
    ValidatorAlreadyRegistered,
    DelegateKeyNotSet,
    InvalidOperator,
    NotPodOwner,
    ValidatorNotFound,
    Unauthorized,
    InvalidAddress,
    InvalidAmount,
    DelegateKeyChangeNotReady,
    CommitmentChangeNotReady,
}

impl UniFiAVSManagerError {
    /// The words of the error.
    pub open spec fn text(self) -> Seq<char> {
        match self {
            UniFiAVSManagerError::RPCError(detail) => "RPC error: "@ + detail@,
            UniFiAVSManagerError::RegistrationExpired => "Registration expired"@,
            UniFiAVSManagerError::InvalidOperatorSalt => "Invalid operator salt"@,
            UniFiAVSManagerError::SignatureExpired => "Signature expired"@,
            UniFiAVSManagerError::OperatorHasValidators => "Operator has validators"@,
            UniFiAVSManagerError::NotOperator => "Not operator"@,
            UniFiAVSManagerError::NoEigenPod => "No EigenPod"@,
            UniFiAVSManagerError::DeregistrationDelayNotElapsed => {
                "Deregistration delay not elapsed"@
            },
            UniFiAVSManagerError::DeregistrationAlreadyStarted => "Deregistration already started"@,
            UniFiAVSManagerError::DeregistrationNotStarted => "Deregistration not started"@,
            UniFiAVSManagerError::NotDelegatedToOperator => "Not delegated to operator"@,
            UniFiAVSManagerError::ValidatorNotActive => "Validator not active"@,
            UniFiAVSManagerError::OperatorAlreadyExists => "Operator already exists"@,
            UniFiAVSManagerError::OperatorNotRegistered => "Operator not registered"@,
            UniFiAVSManagerError::OperatorAlreadyRegistered => "Operator already registered"@,
            UniFiAVSManagerError::NotValidatorOperator => "Not validator operator"@,
            UniFiAVSManagerError::ValidatorAlreadyRegistered => "Validator already registered"@,
            UniFiAVSManagerError::DelegateKeyNotSet => "Delegate key not set"@,
            UniFiAVSManagerError::InvalidOperator => "Invalid operator"@,
            UniFiAVSManagerError::NotPodOwner => "Not pod owner"@,
            UniFiAVSManagerError::ValidatorNotFound => "Validator not found"@,
            UniFiAVSManagerError::Unauthorized => "Unauthorized"@,
            UniFiAVSManagerError::InvalidAddress => "Invalid address"@,
            UniFiAVSManagerError::InvalidAmount => "Invalid amount"@,
            UniFiAVSManagerError::DelegateKeyChangeNotReady => "Delegate key change not ready"@,
            UniFiAVSManagerError::CommitmentChangeNotReady => "Commitment change not ready"@,
        }
    }

    /// The words of the error.
    pub fn message(&self) -> (r: String)
        ensures
            r@ == self.text(),
    {
        match self {
            UniFiAVSManagerError::RPCError(detail) => {
                "RPC error: ".to_owned().concat(detail.as_str())
            },
            UniFiAVSManagerError::RegistrationExpired => "Registration expired".to_owned(),
            UniFiAVSManagerError::InvalidOperatorSalt => "Invalid operator salt".to_owned(),
            UniFiAVSManagerError::SignatureExpired => "Signature expired".to_owned(),
            UniFiAVSManagerError::OperatorHasValidators => "Operator has validators".to_owned(),
            UniFiAVSManagerError::NotOperator => "Not operator".to_owned(),
            UniFiAVSManagerError::NoEigenPod => "No EigenPod".to_owned(),
            UniFiAVSManagerError::DeregistrationDelayNotElapsed => {
                "Deregistration delay not elapsed".to_owned()
            },
            UniFiAVSManagerError::DeregistrationAlreadyStarted => {
                "Deregistration already started".to_owned()
            },
            UniFiAVSManagerError::DeregistrationNotStarted => {
                "Deregistration not started".to_owned()
            },
            UniFiAVSManagerError::NotDelegatedToOperator => "Not delegated to operator".to_owned(),
            UniFiAVSManagerError::ValidatorNotActive => "Validator not active".to_owned(),
            UniFiAVSManagerError::OperatorAlreadyExists => "Operator already exists".to_owned(),
            UniFiAVSManagerError::OperatorNotRegistered => "Operator not registered".to_owned(),
            UniFiAVSManagerError::OperatorAlreadyRegistered => {
                "Operator already registered".to_owned()
            },
            UniFiAVSManagerError::NotValidatorOperator => "Not validator operator".to_owned(),
            UniFiAVSManagerError::ValidatorAlreadyRegistered => {
                "Validator already registered".to_owned()
            },
            UniFiAVSManagerError::DelegateKeyNotSet => "Delegate key not set".to_owned(),
            UniFiAVSManagerError::InvalidOperator => "Invalid operator".to_owned(),
            UniFiAVSManagerError::NotPodOwner => "Not pod owner".to_owned(),
            UniFiAVSManagerError::ValidatorNotFound => "Validator not found".to_owned(),
            UniFiAVSManagerError::Unauthorized => "Unauthorized".to_owned(),
            UniFiAVSManagerError::InvalidAddress => "Invalid address".to_owned(),
            UniFiAVSManagerError::InvalidAmount => "Invalid amount".to_owned(),
            UniFiAVSManagerError::DelegateKeyChangeNotReady => {
                "Delegate key change not ready".to_owned()
            },
            UniFiAVSManagerError::CommitmentChangeNotReady => {
                "Commitment change not ready".to_owned()
            },
        }
    }
}

/// Where a UniFiAVSManager contract is reached.
pub struct UniFiAVSManagerWrapper {
    address: [u8; 20],
    rpc_url: String,
}

impl UniFiAVSManagerWrapper {
    /// The address of the contract.
    pub closed spec fn spec_address(&self) -> [u8; 20] {
        self.address
    }

    /// The URL of the RPC endpoint.
    pub closed spec fn spec_rpc_url(&self) -> Seq<char> {
        self.rpc_url@
    }

    /// A handle on the contract at `address`, reached through the RPC
    /// endpoint `rpc_url`.
    pub fn new(address: [u8; 20], rpc_url: String) -> (wrapper: UniFiAVSManagerWrapper)
        ensures
            wrapper.spec_address() == address,
            wrapper.spec_rpc_url() == rpc_url@,
    {
        UniFiAVSManagerWrapper { address, rpc_url }
    }

    /// The address of the contract.
    pub fn address(&self) -> (address: [u8; 20])
        ensures
            address == self.spec_address(),
    {
        self.address
    }

    /// The URL of the RPC endpoint.
    pub fn rpc_url(&self) -> (url: &str)
        ensures
            url@ == self.spec_rpc_url(),
    {
        self.rpc_url.as_str()
    }
}

/// The hash by which the registry knows the validator with the BLS public key
/// `bls_pub_key`: the Keccak-256 digest of the key.
pub fn validator_key_hash(bls_pub_key: &[u8; 48]) -> (hash: [u8; 32])
    ensures
        hash == keccak256_digest(bls_pub_key@),
{
    keccak256(bls_pub_key.as_slice())
}

/// The hashes by which the registry knows the validators with the BLS public
/// keys `bls_pub_keys`, in their order.
pub fn validator_key_hashes(bls_pub_keys: &Vec<[u8; 48]>) -> (hashes: Vec<[u8; 32]>)
    ensures
        hashes@.len() == bls_pub_keys@.len(),
        forall|i: int|
            0 <= i < hashes@.len() ==> #[trigger] hashes@[i] == keccak256_digest(bls_pub_keys@[i]@),
{
    let mut hashes: Vec<[u8; 32]> = Vec::new();
    let mut i: usize = 0;
    while i < bls_pub_keys.len()
        invariant
            i <= bls_pub_keys.len(),
            hashes@.len() == i,
            forall|k: int|
                0 <= k < i ==> #[trigger] hashes@[k] == keccak256_digest(bls_pub_keys@[k]@),
        decreases bls_pub_keys.len() - i,
    {
        hashes.push(validator_key_hash(&bls_pub_keys[i]));
        i += 1;
    }
    hashes
}

/// Whether `word` is the 256-bit word that spells `n`.
pub open spec fn spells(word: Seq<u8>, n: nat) -> bool {
    word.len() == 32 && be_value(word) == n
}

/// The selector of `getOperator(address)`.
pub open spec fn get_operator_selector() -> Seq<u8> {
    seq![0x58u8, 0x65, 0xc6, 0x0c]
}

/// The selector of `getValidator(bytes32)`.
pub open spec fn get_validator_by_hash_selector() -> Seq<u8> {
    seq![0xd5u8, 0xf2, 0x0f, 0xf6]
}

/// The selector of `getValidator(uint256)`.
pub open spec fn get_validator_by_index_selector() -> Seq<u8> {
    seq![0xb5u8, 0xd8, 0x96, 0x27]
}

/// The selector of `getValidators(bytes32[])`.
pub open spec fn get_validators_selector() -> Seq<u8> {
    seq![0x78u8, 0x6f, 0xfb, 0xc2]
}

/// The selector of `isValidatorInChainId(bytes32,uint256)`.
pub open spec fn is_validator_in_chain_id_selector() -> Seq<u8> {
    seq![0x61u8, 0x9b, 0x90, 0x80]
}

fn push_all(out: &mut Vec<u8>, bytes: &[u8])
    ensures
        final(out)@ == old(out)@ + bytes@,
{
    let ghost start = out@;
    let mut i: usize = 0;
    assert(start + bytes@.take(0) =~= start);
    while i < bytes.len()
        invariant
            i <= bytes.len(),
            out@ == start + bytes@.take(i as int),
        decreases bytes.len() - i,
    {
        out.push(bytes[i]);
        i += 1;
        assert(out@ =~= start + bytes@.take(i as int));
    }
    assert(bytes@.take(bytes.len() as int) == bytes@);
}

fn selector(a: u8, b: u8, c: u8, d: u8) -> (out: Vec<u8>)
    ensures
        out@ == seq![a, b, c, d],
{
    let mut out: Vec<u8> = Vec::new();
    out.push(a);
    out.push(b);
    out.push(c);
    out.push(d);
    assert(out@ =~= seq![a, b, c, d]);
    out
}

/// The call data of `getOperator(operator)`: the selector and the address,
/// filled up with zeros in front to a word.
pub fn get_operator_call(operator: &[u8; 20]) -> (data: Vec<u8>)
    ensures
        data@ == get_operator_selector() + Seq::new(12, |i: int| 0u8) + operator@,
{
    let mut data = selector(0x58, 0x65, 0xc6, 0x0c);
    let zeros: [u8; 12] = [0u8; 12];
    assert(zeros@ =~= Seq::new(12, |i: int| 0u8));
    push_all(&mut data, zeros.as_slice());
    push_all(&mut data, operator.as_slice());
    data
}

/// The call data of `getValidator(bls_pub_key_hash)`.
pub fn get_validator_by_hash_call(bls_pub_key_hash: &[u8; 32]) -> (data: Vec<u8>)
    ensures
        data@ == get_validator_by_hash_selector() + bls_pub_key_hash@,
{
    let mut data = selector(0xd5, 0xf2, 0x0f, 0xf6);
    push_all(&mut data, bls_pub_key_hash.as_slice());
    data
}

/// The call data of `getValidator(validator_index)`.
pub fn get_validator_by_index_call(validator_index: u64) -> (data: Vec<u8>)
    ensures
        data@.len() == 36,
        data@.subrange(0, 4) == get_validator_by_index_selector(),
        spells(data@.subrange(4, 36), validator_index as nat),
{
    let mut data = selector(0xb5, 0xd8, 0x96, 0x27);
    let word = u64_to_word(validator_index);
    push_all(&mut data, word.as_slice());
    assert(data@.subrange(0, 4) =~= get_validator_by_index_selector());
    assert(data@.subrange(4, 36) =~= word@);
    data
}

/// The call data of `getValidators(bls_pub_key_hashes)`: the selector, the
/// offset of the list, its length, and the hashes in their order.
pub fn get_validators_by_hashes_call(bls_pub_key_hashes: &Vec<[u8; 32]>) -> (data: Vec<u8>)
    ensures
        data@.len() == 68 + 32 * bls_pub_key_hashes@.len(),
        data@.subrange(0, 4) == get_validators_selector(),
        spells(data@.subrange(4, 36), 32),
        spells(data@.subrange(36, 68), bls_pub_key_hashes@.len()),
        forall|i: int|
            0 <= i < bls_pub_key_hashes@.len() ==> data@.subrange(68 + 32 * i, 100 + 32 * i)
                == (#[trigger] bls_pub_key_hashes@[i])@,
{
    let mut data = selector(0x78, 0x6f, 0xfb, 0xc2);
    let offset = u64_to_word(32);
    let length = u64_to_word(bls_pub_key_hashes.len() as u64);
    push_all(&mut data, offset.as_slice());
    push_all(&mut data, length.as_slice());
    assert(data@.subrange(0, 4) =~= get_validators_selector());
    assert(data@.subrange(4, 36) =~= offset@);
    assert(data@.subrange(36, 68) =~= length@);
    let ghost head = data@;
    let mut n: usize = 0;
    while n < bls_pub_key_hashes.len()
        invariant
            n <= bls_pub_key_hashes.len(),
            head.len() == 68,
            data@.len() == 68 + 32 * n,
            data@.subrange(0, 68) == head,
            forall|i: int|
                0 <= i < n ==> data@.subrange(68 + 32 * i, 100 + 32 * i)
                    == (#[trigger] bls_pub_key_hashes@[i])@,
        decreases bls_pub_key_hashes.len() - n,
    {
        let ghost before = data@;
        push_all(&mut data, bls_pub_key_hashes[n].as_slice());
        proof {
            assert(data@.subrange(0, 68) =~= before.subrange(0, 68));
            assert(data@.subrange(68 + 32 * n, 100 + 32 * n) =~= bls_pub_key_hashes@[n as int]@);
            assert forall|i: int| 0 <= i < n implies data@.subrange(68 + 32 * i, 100 + 32 * i)
                == (#[trigger] bls_pub_key_hashes@[i])@ by {
                assert(data@.subrange(68 + 32 * i, 100 + 32 * i) =~= before.subrange(
                    68 + 32 * i,
                    100 + 32 * i,
                ));
            }
        }
        n += 1;
    }
    assert(data@.subrange(0, 4) =~= head.subrange(0, 4));
    assert(data@.subrange(4, 36) =~= head.subrange(4, 36));
    assert(data@.subrange(36, 68) =~= head.subrange(36, 68));
    data
}

/// The call data of `isValidatorInChainId(bls_pub_key_hash, chain_id)`.
pub fn is_validator_hash_in_chain_id_call(bls_pub_key_hash: &[u8; 32], chain_id: u64) -> (data:
    Vec<u8>)
    ensures
        data@.len() == 68,
        data@.subrange(0, 36) == is_validator_in_chain_id_selector() + bls_pub_key_hash@,
        spells(data@.subrange(36, 68), chain_id as nat),
{
    let mut data = selector(0x61, 0x9b, 0x90, 0x80);
    push_all(&mut data, bls_pub_key_hash.as_slice());
    let ghost head = data@;
    let word = u64_to_word(chain_id);
    push_all(&mut data, word.as_slice());
    assert(data@.subrange(0, 36) =~= head);
    assert(data@.subrange(36, 68) =~= word@);
    data
}

/// Reads the boolean that a call returned: one word that spells 1 for true
/// and 0 for false. Anything else is no boolean.
pub fn decode_bool_reply(data: &[u8]) -> (r: Option<bool>)
    ensures
        match r {
            Some(value) => spells(data@, if value { 1nat } else { 0nat }),
            None => data@.len() != 32 || be_value(data@) > 1,
        },
{
    if data.len() != 32 {
        return None;
    }
    let word = read_bytes32(data, 0);
    assert(data@.subrange(0, 32) == data@);
    match word_to_u64(&word) {
        Some(value) => {
            if value == 0 {
                Some(false)
            } else if value == 1 {
                Some(true)
            } else {
                None
            }
        },
        None => None,
    }
}

} // verus!
