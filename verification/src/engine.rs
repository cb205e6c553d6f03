//! Trusted boundary to the outside protocol engine (openmls with the
//! rust-crypto provider). Every item here either declares an outside type so
//! that verified code can hold it opaquely, or wraps exactly the engine calls
//! the orchestrator makes, converting between engine values and this crate's
//! plain data. Nothing about group cryptography is promised beyond what the
//! engine's own source shows.

use openmls::prelude::Ciphersuite;
use openmls::prelude::Credential;
use openmls::prelude::CredentialType;
use openmls::prelude::CredentialWithKey;
use openmls::prelude::CryptoConfig;
use openmls::prelude::GroupId;
use openmls::prelude::KeyPackage;
use openmls::prelude::LeafNodeIndex;
use openmls::prelude::MlsGroup;
use openmls::prelude::MlsGroupConfig;
use openmls::prelude::MlsMessageInBody;
use openmls::prelude::ProcessedMessageContent;
use openmls::prelude::ProtocolVersion;
use openmls_traits::OpenMlsCryptoProvider;
use vstd::prelude::*;

verus! {

#[verifier::external_type_specification]
#[verifier::external_body]
pub struct ExOpenMlsRustCrypto(openmls_rust_crypto::OpenMlsRustCrypto);

#[verifier::external_type_specification]
#[verifier::external_body]
pub struct ExSignatureKeyPair(openmls_basic_credential::SignatureKeyPair);

#[verifier::external_type_specification]
#[verifier::external_body]
pub struct ExCredentialWithKey(openmls::prelude::CredentialWithKey);

#[verifier::external_type_specification]
#[verifier::external_body]
pub struct ExKeyPackage(openmls::prelude::KeyPackage);

#[verifier::external_type_specification]
#[verifier::external_body]
pub struct ExMlsGroup(openmls::prelude::MlsGroup);

#[verifier::external_type_specification]
#[verifier::external_body]
pub struct ExWelcome(openmls::prelude::Welcome);

#[verifier::external_type_specification]
#[verifier::external_body]
pub struct ExMlsMessageIn(openmls::prelude::MlsMessageIn);

#[verifier::external_type_specification]
#[verifier::external_body]
pub struct ExMlsMessageOut(openmls::prelude::MlsMessageOut);

#[verifier::external_type_specification]
#[verifier::external_body]
pub struct ExProtocolMessage(openmls::prelude::ProtocolMessage);

#[verifier::external_type_specification]
#[verifier::external_body]
pub struct ExStagedCommit(openmls::prelude::StagedCommit);

/// One group member as the engine reports it, reduced to plain values.
pub struct MemberInfo {
    pub index: u32,
    pub signature_key: Vec<u8>,
    pub identity: Vec<u8>,
}

pub struct MemberInfoV {
    pub index: u32,
    pub signature_key: Seq<u8>,
    pub identity: Seq<u8>,
}

impl View for MemberInfo {
    type V = MemberInfoV;

    open spec fn view(&self) -> MemberInfoV {
        MemberInfoV {
            index: self.index,
            signature_key: self.signature_key@,
            identity: self.identity@,
        }
    }
}

/// An inbound wire artifact, told apart by shape.
pub enum InboundBody {
    Welcome(openmls::prelude::Welcome),
    Protocol(openmls::prelude::ProtocolMessage),
    Unsupported,
}

/// What the engine made of one protocol message.
pub enum ProcessedBody {
    Application(Vec<u8>),
    Proposal,
    ExternalJoin,
    Commit(Box<openmls::prelude::StagedCommit>),
}

/// Relies on OpenMlsRustCrypto::default: a fresh crypto provider with an
/// empty in-memory key store.
#[verifier::external_body]
pub fn crypto_default() -> openmls_rust_crypto::OpenMlsRustCrypto {
    openmls_rust_crypto::OpenMlsRustCrypto::default()
}

/// Relies on openmls' Credential::new (basic credential over the identity
/// bytes) and openmls_basic_credential's SignatureKeyPair::new and store:
/// builds the local signing identity and registers it with the provider's
/// key store. The returned bytes are the public signature key.
#[verifier::external_body]
pub fn identity_new(
    crypto: &openmls_rust_crypto::OpenMlsRustCrypto,
    id: &[u8],
) -> Option<(openmls_basic_credential::SignatureKeyPair, openmls::prelude::CredentialWithKey, Vec<u8>)> {
    let ciphersuite = Ciphersuite::MLS_128_DHKEMX25519_AES128GCM_SHA256_Ed25519;
    let credential = Credential::new(id.to_vec(), CredentialType::Basic).ok()?;
    let signature_keys =
        openmls_basic_credential::SignatureKeyPair::new(ciphersuite.signature_algorithm()).ok()?;
    signature_keys.store(crypto.key_store()).ok()?;
    let public_key = signature_keys.to_public_vec();
    let credential_with_key = CredentialWithKey {
        credential,
        signature_key: public_key.clone().into(),
    };
    Some((signature_keys, credential_with_key, public_key))
}

/// Relies on openmls' KeyPackage::builder().build and KeyPackage::hash_ref:
/// a fresh key package for this identity, keyed by its hash reference.
#[verifier::external_body]
pub fn key_package_build(
    crypto: &openmls_rust_crypto::OpenMlsRustCrypto,
    signer: &openmls_basic_credential::SignatureKeyPair,
    credential_with_key: &openmls::prelude::CredentialWithKey,
) -> Option<(Vec<u8>, openmls::prelude::KeyPackage)> {
    let config = CryptoConfig {
        ciphersuite: Ciphersuite::MLS_128_DHKEMX25519_AES128GCM_SHA256_Ed25519,
        version: ProtocolVersion::default(),
    };
    let kp = KeyPackage::builder().build(config, crypto, signer, credential_with_key.clone()).ok()?;
    let hash = kp.hash_ref(crypto.crypto()).ok()?.as_slice().to_vec();
    Some((hash, kp))
}

/// Relies on openmls' MlsGroup::new_with_group_id (with the ratchet-tree
/// extension enabled): a fresh group under the given identifier.
#[verifier::external_body]
pub fn group_create(
    crypto: &openmls_rust_crypto::OpenMlsRustCrypto,
    signer: &openmls_basic_credential::SignatureKeyPair,
    credential_with_key: &openmls::prelude::CredentialWithKey,
    group_id: &[u8],
) -> Option<openmls::prelude::MlsGroup> {
    let config = MlsGroupConfig::builder().use_ratchet_tree_extension(true).build();
    MlsGroup::new_with_group_id(
        crypto,
        signer,
        &config,
        GroupId::from_slice(group_id),
        credential_with_key.clone(),
    ).ok()
}

/// Relies on openmls' MlsGroup::set_aad: installs the additional
/// authenticated data used for the group's subsequent messages.
#[verifier::external_body]
pub fn group_set_aad(group: &mut openmls::prelude::MlsGroup, aad: &[u8]) {
    group.set_aad(aad)
}

/// Relies on openmls' MlsGroup::new_from_welcome and MlsGroup::group_id:
/// installs the group state a welcome artifact describes and reports the
/// group identifier embedded in it.
#[verifier::external_body]
pub fn group_join(
    crypto: &openmls_rust_crypto::OpenMlsRustCrypto,
    welcome: openmls::prelude::Welcome,
) -> Option<(Vec<u8>, openmls::prelude::MlsGroup)> {
    let config = MlsGroupConfig::builder().use_ratchet_tree_extension(true).build();
    let group = MlsGroup::new_from_welcome(crypto, &config, welcome, None).ok()?;
    let group_id = group.group_id().as_slice().to_vec();
    Some((group_id, group))
}

/// Relies on openmls' MlsGroup::members: the current membership, each member
/// reduced to leaf index, public signature key and credential identity.
#[verifier::external_body]
pub fn group_members(group: &openmls::prelude::MlsGroup) -> Vec<MemberInfo> {
    let mut out = Vec::new();
    for m in group.members() {
        out.push(MemberInfo {
            index: m.index.u32(),
            signature_key: m.signature_key,
            identity: m.credential.identity().to_vec(),
        });
    }
    out
}

/// Relies on openmls' MlsGroup::create_message: an encrypted application
/// message for the group's current epoch.
#[verifier::external_body]
pub fn group_create_message(
    group: &mut openmls::prelude::MlsGroup,
    crypto: &openmls_rust_crypto::OpenMlsRustCrypto,
    signer: &openmls_basic_credential::SignatureKeyPair,
    msg: &[u8],
) -> Result<openmls::prelude::MlsMessageOut, String> {
    group.create_message(crypto, signer, msg).map_err(|e| format!("{e}"))
}

/// Relies on openmls' MlsGroup::add_members: stages an add commit and returns
/// the commit artifact for current members and the welcome for the joiner.
#[verifier::external_body]
pub fn group_add_member(
    group: &mut openmls::prelude::MlsGroup,
    crypto: &openmls_rust_crypto::OpenMlsRustCrypto,
    signer: &openmls_basic_credential::SignatureKeyPair,
    key_package: openmls::prelude::KeyPackage,
) -> Result<(openmls::prelude::MlsMessageOut, openmls::prelude::MlsMessageOut), String> {
    match group.add_members(crypto, signer, &[key_package]) {
        Ok((commit, welcome, _group_info)) => Ok((commit, welcome)),
        Err(e) => Err(format!("Failed to add member to group - {e}")),
    }
}

/// Relies on openmls' MlsGroup::remove_members: stages a remove commit for
/// the member at the given leaf index and returns the commit artifact.
#[verifier::external_body]
pub fn group_remove_member(
    group: &mut openmls::prelude::MlsGroup,
    crypto: &openmls_rust_crypto::OpenMlsRustCrypto,
    signer: &openmls_basic_credential::SignatureKeyPair,
    index: u32,
) -> Result<openmls::prelude::MlsMessageOut, String> {
    match group.remove_members(crypto, signer, &[LeafNodeIndex::new(index)]) {
        Ok((commit, _welcome, _group_info)) => Ok(commit),
        Err(e) => Err(format!("Failed to remove member from group - {e}")),
    }
}

/// Relies on openmls' MlsGroup::merge_pending_commit: applies the staged
/// local commit, advancing the group one epoch.
#[verifier::external_body]
pub fn group_merge_pending_commit(
    group: &mut openmls::prelude::MlsGroup,
    crypto: &openmls_rust_crypto::OpenMlsRustCrypto,
) -> Result<(), String> {
    group.merge_pending_commit(crypto).map_err(|e| format!("{e}"))
}

/// Relies on openmls' MlsGroup::clear_pending_commit: discards the staged
/// local commit, leaving the group in its pre-commit epoch.
#[verifier::external_body]
pub fn group_clear_pending_commit(group: &mut openmls::prelude::MlsGroup) {
    group.clear_pending_commit()
}

/// Relies on openmls' MlsGroup::process_message and
/// ProcessedMessage::into_content: decrypts and validates one protocol
/// message, told apart by content kind.
#[verifier::external_body]
pub fn group_process_message(
    group: &mut openmls::prelude::MlsGroup,
    crypto: &openmls_rust_crypto::OpenMlsRustCrypto,
    message: openmls::prelude::ProtocolMessage,
) -> Result<ProcessedBody, String> {
    match group.process_message(crypto, message) {
        Ok(processed) => Ok(match processed.into_content() {
            ProcessedMessageContent::ApplicationMessage(a) => {
                ProcessedBody::Application(a.into_bytes())
            }
            ProcessedMessageContent::ProposalMessage(_) => ProcessedBody::Proposal,
            ProcessedMessageContent::ExternalJoinProposalMessage(_) => ProcessedBody::ExternalJoin,
            ProcessedMessageContent::StagedCommitMessage(c) => ProcessedBody::Commit(c),
        }),
        Err(e) => Err(format!("{e}")),
    }
}

/// Relies on openmls' MlsGroup::merge_staged_commit: applies a commit
/// received from another member.
#[verifier::external_body]
pub fn group_merge_staged_commit(
    group: &mut openmls::prelude::MlsGroup,
    crypto: &openmls_rust_crypto::OpenMlsRustCrypto,
    commit: Box<openmls::prelude::StagedCommit>,
) -> Result<(), String> {
    group.merge_staged_commit(crypto, *commit).map_err(|e| format!("{e}"))
}

/// Relies on openmls' MlsMessageIn::extract: splits an inbound artifact into
/// a welcome, a protocol message (private or public wire form), or an
/// unsupported shape.
#[verifier::external_body]
pub fn message_extract(message: openmls::prelude::MlsMessageIn) -> InboundBody {
    match message.extract() {
        MlsMessageInBody::Welcome(w) => InboundBody::Welcome(w),
        MlsMessageInBody::PrivateMessage(p) => InboundBody::Protocol(p.into()),
        MlsMessageInBody::PublicMessage(p) => InboundBody::Protocol(p.into()),
        _ => InboundBody::Unsupported,
    }
}

/// Relies on openmls' ProtocolMessage::group_id: the group identifier a
/// protocol message claims to belong to.
#[verifier::external_body]
pub fn protocol_message_group_id(message: &openmls::prelude::ProtocolMessage) -> Vec<u8> {
    message.group_id().as_slice().to_vec()
}

/// The characters that UTF-8 decoding recovers from the given bytes, if any.
pub uninterp spec fn utf8_of(bytes: Seq<u8>) -> Option<Seq<char>>;

/// Relies on String::from_utf8: deterministic decoding; invalid byte
/// sequences are rejected.
#[verifier::external_body]
pub fn utf8_string(bytes: Vec<u8>) -> (r: Option<String>)
    ensures
        match r {
            Some(s) => utf8_of(bytes@) == Some(s@),
            None => utf8_of(bytes@) is None,
        },
{
    match String::from_utf8(bytes) {
        Ok(s) => Some(s),
        Err(_) => None,
    }
}

} // verus!
