//! Per-user session orchestrator: owns the contact directory, one session per
//! group, and the local identity; routes inbound protocol messages to the
//! matching session, drives membership changes in delivery-before-merge
//! order, and keeps bounded conversation history.
//!
//! Network transport is a collaborator: methods that need delivery return the
//! outbound artifacts and their recipients, and the caller reports delivery
//! back through `complete_commit` before any membership commit is merged.

use crate::conversation::Conversation;
use crate::engine::crypto_default;
use crate::engine::group_add_member;
use crate::engine::group_clear_pending_commit;
use crate::engine::group_create;
use crate::engine::group_create_message;
use crate::engine::group_join;
use crate::engine::group_members;
use crate::engine::group_merge_pending_commit;
use crate::engine::group_merge_staged_commit;
use crate::engine::group_process_message;
use crate::engine::group_remove_member;
use crate::engine::group_set_aad;
use crate::engine::identity_new;
use crate::engine::key_package_build;
use crate::engine::message_extract;
use crate::engine::protocol_message_group_id;
use crate::engine::utf8_of;
use crate::engine::utf8_string;
use crate::engine::InboundBody;
use crate::engine::MemberInfo;
use crate::engine::MemberInfoV;
use crate::engine::ProcessedBody;
use crate::persistent_key_store::bytes_eq;
use vstd::prelude::*;
use vstd::string::*;

verus! {

/// View of a list of byte vectors as a sequence of byte strings.
pub open spec fn vvs(s: Seq<Vec<u8>>) -> Seq<Seq<u8>> {
    s.map_values(|v: Vec<u8>| v@)
}

/// A known remote client: display name, remote identity, and the key-package
/// bytes it advertises. Keyed by `id`; a refresh replaces a contact wholesale.
pub struct Contact {
    pub username: Vec<u8>,
    pub id: Vec<u8>,
    pub key_packages: Vec<Vec<u8>>,
}

pub struct ContactV {
    pub username: Seq<u8>,
    pub id: Seq<u8>,
    pub key_packages: Seq<Seq<u8>>,
}

impl View for Contact {
    type V = ContactV;

    open spec fn view(&self) -> ContactV {
        ContactV { username: self.username@, id: self.id@, key_packages: vvs(self.key_packages@) }
    }
}

/// One entry of the directory service's client list.
pub struct ClientInfo {
    pub client_name: Vec<u8>,
    pub id: Vec<u8>,
    pub key_packages: Vec<Vec<u8>>,
}

pub struct ClientInfoV {
    pub client_name: Seq<u8>,
    pub id: Seq<u8>,
    pub key_packages: Seq<Seq<u8>>,
}

impl View for ClientInfo {
    type V = ClientInfoV;

    open spec fn view(&self) -> ClientInfoV {
        ClientInfoV {
            client_name: self.client_name@,
            id: self.id@,
            key_packages: vvs(self.key_packages@),
        }
    }
}

/// One group session: the human-readable name (also the group identifier),
/// the conversation log, the engine's group state, and whether a locally
/// staged membership commit awaits delivery confirmation.
pub struct Group {
    pub group_name: Vec<u8>,
    conversation: Conversation,
    mls_group: openmls::prelude::MlsGroup,
    pending_commit: bool,
}

pub struct GroupV {
    pub name: Seq<u8>,
    pub conversation: Seq<String>,
    pub pending_commit: bool,
}

impl View for Group {
    type V = GroupV;

    closed spec fn view(&self) -> GroupV {
        GroupV {
            name: self.group_name@,
            conversation: self.conversation@,
            pending_commit: self.pending_commit,
        }
    }
}

/// The local identity: identity bytes, the public signature key, and the
/// engine-side signing material with published key packages.
pub struct Identity {
    pub id: Vec<u8>,
    pub signature_key: Vec<u8>,
    signer: openmls_basic_credential::SignatureKeyPair,
    credential_with_key: openmls::prelude::CredentialWithKey,
    kp: Vec<(Vec<u8>, openmls::prelude::KeyPackage)>,
}

/// Outbound artifacts one operation produced, with the identities they must
/// be delivered to.
pub struct OutboundMessage {
    pub message: openmls::prelude::MlsMessageOut,
    pub welcome: Option<openmls::prelude::MlsMessageOut>,
    pub recipients: Vec<Vec<u8>>,
}

pub open spec fn cvs(cs: Seq<ClientInfo>) -> Seq<ClientInfoV> {
    cs.map_values(|c: ClientInfo| c@)
}

pub open spec fn mvs(ms: Seq<MemberInfo>) -> Seq<MemberInfoV> {
    ms.map_values(|m: MemberInfo| m@)
}

pub open spec fn gvs(gs: Seq<Group>) -> Seq<GroupV> {
    gs.map_values(|g: Group| g@)
}

/// The directory as a mapping from remote identity to contact record.
pub open spec fn dir_map(cs: Seq<Contact>) -> Map<Seq<u8>, ContactV>
    decreases cs.len(),
{
    if cs.len() == 0 {
        Map::empty()
    } else {
        dir_map(cs.drop_last()).insert(cs.last()@.id, cs.last()@)
    }
}

pub open spec fn unique_contact_ids(cs: Seq<Contact>) -> bool {
    forall|i: int, j: int| 0 <= i < j < cs.len() ==> (#[trigger] cs[i])@.id != (#[trigger] cs[j])@.id
}

pub open spec fn unique_group_names(gs: Seq<GroupV>) -> bool {
    forall|i: int, j: int| 0 <= i < j < gs.len() ==> (#[trigger] gs[i]).name != (#[trigger] gs[j]).name
}

pub open spec fn has_group(gs: Seq<GroupV>, name: Seq<u8>) -> bool {
    exists|i: int| 0 <= i < gs.len() && (#[trigger] gs[i]).name == name
}

pub open spec fn has_contact_named(cs: Seq<Contact>, name: Seq<u8>) -> bool {
    exists|i: int| 0 <= i < cs.len() && (#[trigger] cs[i])@.username == name
}

/// The contact record a discovered client becomes.
pub open spec fn contact_of(c: ClientInfoV) -> ContactV {
    ContactV { username: c.client_name, id: c.id, key_packages: c.key_packages }
}

/// One full directory refresh: every listed client other than the local
/// identity is inserted or replaced, in list order; nothing is deleted.
pub open spec fn refresh_dir(
    m: Map<Seq<u8>, ContactV>,
    own: Seq<u8>,
    cs: Seq<ClientInfoV>,
) -> Map<Seq<u8>, ContactV>
    decreases cs.len(),
{
    if cs.len() == 0 {
        m
    } else {
        let r = refresh_dir(m, own, cs.drop_last());
        if cs.last().id == own {
            r
        } else {
            r.insert(cs.last().id, contact_of(cs.last()))
        }
    }
}

/// The index of the last client-list entry that settles key `k`, if any.
pub open spec fn last_hit(cs: Seq<ClientInfoV>, own: Seq<u8>, k: Seq<u8>) -> Option<int>
    decreases cs.len(),
{
    if cs.len() == 0 {
        None
    } else if cs.last().id == k && k != own {
        Some(cs.len() - 1)
    } else {
        last_hit(cs.drop_last(), own, k)
    }
}

pub proof fn lemma_refresh_at(
    m: Map<Seq<u8>, ContactV>,
    own: Seq<u8>,
    cs: Seq<ClientInfoV>,
    k: Seq<u8>,
)
    ensures
        match last_hit(cs, own, k) {
            Some(i) => 0 <= i < cs.len() && cs[i].id == k && refresh_dir(m, own, cs).contains_key(k)
                && refresh_dir(m, own, cs)[k] == contact_of(cs[i]),
            None => refresh_dir(m, own, cs).contains_key(k) == m.contains_key(k) && (
            m.contains_key(k) ==> refresh_dir(m, own, cs)[k] == m[k]),
        },
    decreases cs.len(),
{
    if cs.len() > 0 {
        lemma_refresh_at(m, own, cs.drop_last(), k);
        assert(forall|i: int| 0 <= i < cs.len() - 1 ==> (#[trigger] cs.drop_last()[i]) == cs[i]);
    }
}

/// Directory idempotence: refreshing twice with an identical client list
/// produces a directory identical, by key set and field values, to
/// refreshing once.
pub proof fn lemma_refresh_idempotent(m: Map<Seq<u8>, ContactV>, own: Seq<u8>, cs: Seq<ClientInfoV>)
    ensures
        refresh_dir(refresh_dir(m, own, cs), own, cs) == refresh_dir(m, own, cs),
{
    let r1 = refresh_dir(m, own, cs);
    let r2 = refresh_dir(r1, own, cs);
    assert forall|k: Seq<u8>| #[trigger] r2.contains_key(k) implies r1.contains_key(k) && r2[k]
        == r1[k] by {
        lemma_refresh_at(m, own, cs, k);
        lemma_refresh_at(r1, own, cs, k);
    }
    assert forall|k: Seq<u8>| #[trigger] r1.contains_key(k) implies r2.contains_key(k) by {
        lemma_refresh_at(m, own, cs, k);
        lemma_refresh_at(r1, own, cs, k);
    }
    assert(r2.dom() =~= r1.dom());
    assert(r2 =~= r1);
}

pub proof fn lemma_dir_contains(cs: Seq<Contact>, k: Seq<u8>)
    ensures
        dir_map(cs).contains_key(k) <==> exists|i: int| 0 <= i < cs.len() && (#[trigger] cs[i])@.id
            == k,
    decreases cs.len(),
{
    if cs.len() > 0 {
        lemma_dir_contains(cs.drop_last(), k);
        assert(forall|i: int| 0 <= i < cs.len() - 1 ==> (#[trigger] cs.drop_last()[i]) == cs[i]);
        if dir_map(cs).contains_key(k) {
            if cs.last()@.id == k {
                assert(cs[cs.len() - 1]@.id == k);
            } else {
                let i = choose|i: int|
                    0 <= i < cs.drop_last().len() && (#[trigger] cs.drop_last()[i])@.id == k;
                assert(cs[i]@.id == k);
            }
        }
        if exists|i: int| 0 <= i < cs.len() && (#[trigger] cs[i])@.id == k {
            let i = choose|i: int| 0 <= i < cs.len() && (#[trigger] cs[i])@.id == k;
            if i < cs.len() - 1 {
                assert(cs.drop_last()[i]@.id == k);
            }
        }
    }
}

pub proof fn lemma_dir_get(cs: Seq<Contact>, i: int)
    requires
        unique_contact_ids(cs),
        0 <= i < cs.len(),
    ensures
        dir_map(cs).contains_key(cs[i]@.id),
        dir_map(cs)[cs[i]@.id] == cs[i]@,
    decreases cs.len(),
{
    if i == cs.len() - 1 {
        assert(cs.last() == cs[i]);
    } else {
        assert(unique_contact_ids(cs.drop_last()));
        assert(cs.drop_last()[i] == cs[i]);
        lemma_dir_get(cs.drop_last(), i);
        assert(cs[i]@.id != cs.last()@.id);
    }
}

pub proof fn lemma_dir_remove(cs: Seq<Contact>, i: int)
    requires
        unique_contact_ids(cs),
        0 <= i < cs.len(),
    ensures
        dir_map(cs.remove(i)) == dir_map(cs).remove(cs[i]@.id),
    decreases cs.len(),
{
    if i == cs.len() - 1 {
        assert(cs.remove(i) =~= cs.drop_last());
        lemma_dir_contains(cs.drop_last(), cs[i]@.id);
        assert(forall|j: int| 0 <= j < cs.len() - 1 ==> (#[trigger] cs.drop_last()[j]) == cs[j]);
        assert(!dir_map(cs.drop_last()).contains_key(cs[i]@.id));
        assert(dir_map(cs.drop_last()).insert(cs.last()@.id, cs.last()@).remove(cs[i]@.id)
            =~= dir_map(cs.drop_last()));
    } else {
        assert(unique_contact_ids(cs.drop_last()));
        assert(cs.drop_last()[i] == cs[i]);
        lemma_dir_remove(cs.drop_last(), i);
        assert(cs.remove(i).drop_last() =~= cs.drop_last().remove(i));
        assert(cs.remove(i).last() == cs.last());
        assert(cs[i]@.id != cs.last()@.id);
        assert(dir_map(cs.drop_last()).remove(cs[i]@.id).insert(cs.last()@.id, cs.last()@)
            =~= dir_map(cs.drop_last()).insert(cs.last()@.id, cs.last()@).remove(cs[i]@.id));
    }
}

/// Group sessions are never torn down: every session present before an
/// operation is still present, in place and under its name, afterwards.
pub open spec fn groups_preserved(pre: Seq<GroupV>, post: Seq<GroupV>) -> bool {
    &&& pre.len() <= post.len()
    &&& forall|j: int| 0 <= j < pre.len() ==> (#[trigger] post[j]).name == pre[j].name
}

/// The directory map and the contact sequence describe one directory: a
/// display name is known among the contacts exactly when some record of the
/// directory map carries it.
pub proof fn lemma_contact_named_in_view(u: User, name: Seq<u8>)
    requires
        u.wf(),
    ensures
        has_contact_named(u.contacts_seq(), name) <==> exists|k: Seq<u8>|
            u.contacts_view().contains_key(k) && (#[trigger] u.contacts_view()[k]).username
                == name,
{
    let cs = u.contacts_seq();
    if has_contact_named(cs, name) {
        let i = choose|i: int| 0 <= i < cs.len() && (#[trigger] cs[i])@.username == name;
        lemma_dir_get(cs, i);
        assert(u.contacts_view().contains_key(cs[i]@.id) && u.contacts_view()[cs[i]@.id].username
            == name);
    }
    if exists|k: Seq<u8>|
        u.contacts_view().contains_key(k) && (#[trigger] u.contacts_view()[k]).username == name {
        let k = choose|k: Seq<u8>|
            u.contacts_view().contains_key(k) && (#[trigger] u.contacts_view()[k]).username
                == name;
        lemma_dir_contains(cs, k);
        let i = choose|i: int| 0 <= i < cs.len() && (#[trigger] cs[i])@.id == k;
        lemma_dir_get(cs, i);
        assert(cs[i]@.username == name);
    }
}

/// Whether an application message belongs to the caller's optional filter.
pub open spec fn filter_matches(filter: Option<Vec<u8>>, name: Seq<u8>) -> bool {
    match filter {
        None => true,
        Some(f) => f@ == name,
    }
}

/// Every current member whose signature key differs from the local one,
/// resolved through the directory to a deliverable identity, in membership
/// order; a member absent from the directory makes the whole set undefined.
pub open spec fn recipients_spec(
    ms: Seq<MemberInfoV>,
    dir: Map<Seq<u8>, ContactV>,
    own_sig: Seq<u8>,
) -> Option<Seq<Seq<u8>>>
    decreases ms.len(),
{
    if ms.len() == 0 {
        Some(Seq::empty())
    } else {
        match recipients_spec(ms.drop_last(), dir, own_sig) {
            None => None,
            Some(rs) => {
                if ms.last().signature_key == own_sig {
                    Some(rs)
                } else if dir.contains_key(ms.last().identity) {
                    Some(rs.push(dir[ms.last().identity].id))
                } else {
                    None
                }
            },
        }
    }
}

pub proof fn lemma_recipients_none(
    ms: Seq<MemberInfoV>,
    dir: Map<Seq<u8>, ContactV>,
    own_sig: Seq<u8>,
    i: int,
)
    requires
        0 <= i < ms.len(),
        ms[i].signature_key != own_sig,
        !dir.contains_key(ms[i].identity),
    ensures
        recipients_spec(ms, dir, own_sig) is None,
    decreases ms.len(),
{
    if i == ms.len() - 1 {
        assert(ms.last() == ms[i]);
    } else {
        assert(ms.drop_last()[i] == ms[i]);
        lemma_recipients_none(ms.drop_last(), dir, own_sig, i);
    }
}

/// Resolve group members to deliverable recipient identities.
/// A member missing from the directory is a directory/group-state
/// desynchronization and fails the whole operation.
pub fn recipients(
    members: &Vec<MemberInfo>,
    contacts: &Vec<Contact>,
    own_signature_key: &[u8],
) -> (r: Result<Vec<Vec<u8>>, String>)
    requires
        unique_contact_ids(contacts@),
    ensures
        match r {
            Ok(v) => recipients_spec(mvs(members@), dir_map(contacts@), own_signature_key@)
                == Some(vvs(v@)),
            Err(_) => recipients_spec(mvs(members@), dir_map(contacts@), own_signature_key@)
                is None,
        },
{
    let ghost ms = mvs(members@);
    let ghost dir = dir_map(contacts@);
    let mut out: Vec<Vec<u8>> = Vec::new();
    let mut i: usize = 0;
    proof {
        assert(ms.take(0int) =~= Seq::<MemberInfoV>::empty());
        assert(vvs(out@) =~= Seq::<Seq<u8>>::empty());
    }
    while i < members.len()
        invariant
            i <= members@.len(),
            ms == mvs(members@),
            dir == dir_map(contacts@),
            unique_contact_ids(contacts@),
            recipients_spec(ms.take(i as int), dir, own_signature_key@) == Some(vvs(out@)),
        decreases members@.len() - i,
    {
        proof {
            assert(ms.take(i + 1int).drop_last() =~= ms.take(i as int));
            assert(ms.take(i + 1int).last() == ms[i as int]);
            assert(ms[i as int] == members@[i as int]@);
        }
        if !bytes_eq(members[i].signature_key.as_slice(), own_signature_key) {
            match find_contact_index_by_id(contacts, members[i].identity.as_slice()) {
                None => {
                    proof {
                        lemma_dir_contains(contacts@, ms[i as int].identity);
                        assert(ms[i as int].signature_key != own_signature_key@);
                        assert(!dir.contains_key(ms[i as int].identity));
                        lemma_recipients_none(ms, dir, own_signature_key@, i as int);
                    }
                    return Err(
                        String::from_str("There's a member in the group we don't know."),
                    );
                },
                Some(ci) => {
                    let ghost oldout = vvs(out@);
                    proof {
                        lemma_dir_get(contacts@, ci as int);
                    }
                    out.push(vstd::slice::slice_to_vec(contacts[ci].id.as_slice()));
                    proof {
                        assert(vvs(out@) =~= oldout.push(dir[ms[i as int].identity].id));
                    }
                },
            }
        }
        i += 1;
    }
    proof {
        assert(ms.take(members@.len() as int) =~= ms);
    }
    Ok(out)
}

/// The index of the contact holding identity `id`, if one is known.
fn find_contact_index_by_id(contacts: &Vec<Contact>, id: &[u8]) -> (r: Option<usize>)
    ensures
        match r {
            Some(i) => i < contacts@.len() && contacts@[i as int]@.id == id@,
            None => forall|j: int|
                0 <= j < contacts@.len() ==> (#[trigger] contacts@[j])@.id != id@,
        },
{
    let mut i: usize = 0;
    while i < contacts.len()
        invariant
            i <= contacts@.len(),
            forall|j: int| 0 <= j < i ==> (#[trigger] contacts@[j])@.id != id@,
        decreases contacts@.len() - i,
    {
        if bytes_eq(contacts[i].id.as_slice(), id) {
            return Some(i);
        }
        i += 1;
    }
    None
}

/// The position of the first member whose credential identity is `name`, in
/// membership order, if one exists.
pub open spec fn first_member_index(ms: Seq<MemberInfoV>, name: Seq<u8>) -> Option<int>
    decreases ms.len(),
{
    if ms.len() == 0 {
        None
    } else if ms[0].identity == name {
        Some(0int)
    } else {
        match first_member_index(ms.drop_first(), name) {
            Some(i) => Some(i + 1),
            None => None,
        }
    }
}

pub proof fn lemma_first_member_at(ms: Seq<MemberInfoV>, name: Seq<u8>, i: int)
    requires
        0 <= i < ms.len(),
        ms[i].identity == name,
        forall|k: int| 0 <= k < i ==> (#[trigger] ms[k]).identity != name,
    ensures
        first_member_index(ms, name) == Some(i),
    decreases i,
{
    if i > 0 {
        assert(forall|k: int| 0 <= k < ms.drop_first().len() ==> (#[trigger] ms.drop_first()[k])
            == ms[k + 1]);
        lemma_first_member_at(ms.drop_first(), name, i - 1);
    }
}

pub proof fn lemma_first_member_none(ms: Seq<MemberInfoV>, name: Seq<u8>)
    requires
        forall|k: int| 0 <= k < ms.len() ==> (#[trigger] ms[k]).identity != name,
    ensures
        first_member_index(ms, name) is None,
    decreases ms.len(),
{
    if ms.len() > 0 {
        assert(forall|k: int| 0 <= k < ms.drop_first().len() ==> (#[trigger] ms.drop_first()[k])
            == ms[k + 1]);
        lemma_first_member_none(ms.drop_first(), name);
    }
}

/// The leaf index of the first member, in membership order, whose credential
/// identity is `name`; "Unknown member" when no member carries it.
pub fn find_member_index(name: &[u8], members: &Vec<MemberInfo>) -> (r: Result<u32, String>)
    ensures
        match r {
            Ok(ix) => first_member_index(mvs(members@), name@) is Some && mvs(members@)[
                first_member_index(mvs(members@), name@).unwrap()
            ].index == ix,
            Err(_) => first_member_index(mvs(members@), name@) is None,
        },
{
    let mut i: usize = 0;
    while i < members.len()
        invariant
            i <= members@.len(),
            forall|j: int| 0 <= j < i ==> (#[trigger] mvs(members@)[j]).identity != name@,
        decreases members@.len() - i,
    {
        proof {
            assert(mvs(members@)[i as int] == members@[i as int]@);
        }
        if bytes_eq(members[i].identity.as_slice(), name) {
            proof {
                lemma_first_member_at(mvs(members@), name@, i as int);
            }
            return Ok(members[i].index);
        }
        i += 1;
    }
    proof {
        lemma_first_member_none(mvs(members@), name@);
    }
    Err(String::from_str("Unknown member"))
}

/// The one session orchestrator of a running client.
pub struct User {
    username: Vec<u8>,
    contacts: Vec<Contact>,
    groups: Vec<Group>,
    identity: Identity,
    crypto: openmls_rust_crypto::OpenMlsRustCrypto,
}

impl User {
    pub closed spec fn groups_view(self) -> Seq<GroupV> {
        gvs(self.groups@)
    }

    pub closed spec fn contacts_view(self) -> Map<Seq<u8>, ContactV> {
        dir_map(self.contacts@)
    }

    pub closed spec fn user_name(self) -> Seq<u8> {
        self.username@
    }

    /// The user's name; identical to the identity bytes.
    pub fn username(&self) -> (r: &Vec<u8>)
        ensures
            r@ == self.user_name(),
    {
        &self.username
    }

    pub closed spec fn own_id(self) -> Seq<u8> {
        self.identity.id@
    }

    pub closed spec fn own_signature_key(self) -> Seq<u8> {
        self.identity.signature_key@
    }

    /// The published key packages, each keyed by its hash reference, in
    /// publication order.
    pub closed spec fn key_packages_view(self) -> Seq<(Vec<u8>, openmls::prelude::KeyPackage)> {
        self.identity.kp@
    }

    pub open spec fn key_package_count(self) -> nat {
        self.key_packages_view().len()
    }

    /// Group names are unique, contact identities are unique, and the
    /// identity bytes are the username.
    pub closed spec fn wf(self) -> bool {
        &&& unique_group_names(gvs(self.groups@))
        &&& unique_contact_ids(self.contacts@)
        &&& self.identity.id@ == self.username@
    }

    /// Identity material is never replaced by orchestrator operations.
    pub closed spec fn same_identity(self, other: User) -> bool {
        &&& self.username@ == other.username@
        &&& self.own_id() == other.own_id()
        &&& self.own_signature_key() == other.own_signature_key()
    }

    /// Create a new user with the given name and a fresh set of credentials,
    /// with one initial key package published.
    pub fn new(username: Vec<u8>) -> (r: Option<User>)
        ensures
            r matches Some(u) ==> u.wf() && u.user_name() == username@ && u.own_id() == username@
                && u.groups_view() == Seq::<GroupV>::empty() && u.contacts_view() == Map::<
                Seq<u8>,
                ContactV,
            >::empty() && u.key_package_count() == 1,
    {
        let crypto = crypto_default();
        let id_bytes = vstd::slice::slice_to_vec(username.as_slice());
        let (signer, credential_with_key, signature_key) = match identity_new(
            &crypto,
            username.as_slice(),
        ) {
            None => {
                return None;
            },
            Some(x) => x,
        };
        let mut kp: Vec<(Vec<u8>, openmls::prelude::KeyPackage)> = Vec::new();
        match key_package_build(&crypto, &signer, &credential_with_key) {
            None => {
                return None;
            },
            Some(p) => kp.push(p),
        }
        let identity = Identity { id: id_bytes, signature_key, signer, credential_with_key, kp };
        let u = User {
            username,
            contacts: Vec::new(),
            groups: Vec::new(),
            identity,
            crypto,
        };
        proof {
            assert(gvs(u.groups@) =~= Seq::<GroupV>::empty());
            assert(dir_map(u.contacts@) =~= Map::<Seq<u8>, ContactV>::empty());
        }
        Some(u)
    }

    /// Publish one more key package for this user: exactly one pair is
    /// appended and every existing entry stays in place.
    pub fn add_key_package(&mut self) -> (r: Result<(), String>)
        requires
            old(self).wf(),
        ensures
            final(self).wf(),
            old(self).same_identity(*final(self)),
            final(self).groups_view() == old(self).groups_view(),
            final(self).contacts_view() == old(self).contacts_view(),
            r is Ok ==> exists|p: (Vec<u8>, openmls::prelude::KeyPackage)|
                final(self).key_packages_view() == old(self).key_packages_view().push(p),
            r is Err ==> final(self).key_packages_view() == old(self).key_packages_view(),
    {
        match key_package_build(&self.crypto, &self.identity.signer, &self.identity.credential_with_key) {
            None => Err(String::from_str("Failed to build key package")),
            Some(p) => {
                self.identity.kp.push(p);
                proof {
                    assert(self.key_packages_view() == old(self).key_packages_view().push(p));
                }
                Ok(())
            },
        }
    }

    /// The key packages of this user: every stored (hash reference, key
    /// package) pair, in publication order.
    pub fn key_packages(&self) -> (r: &Vec<(Vec<u8>, openmls::prelude::KeyPackage)>)
        ensures
            r@ == self.key_packages_view(),
    {
        &self.identity.kp
    }

    /// The index of the session for the given group identifier.
    fn find_group_index(&self, name: &[u8]) -> (r: Option<usize>)
        ensures
            match r {
                Some(i) => i < self.groups@.len() && gvs(self.groups@)[i as int].name == name@,
                None => !has_group(gvs(self.groups@), name@),
            },
    {
        let mut i: usize = 0;
        while i < self.groups.len()
            invariant
                i <= self.groups@.len(),
                forall|j: int| 0 <= j < i ==> (#[trigger] gvs(self.groups@)[j]).name != name@,
            decreases self.groups@.len() - i,
        {
            proof {
                assert(gvs(self.groups@)[i as int] == self.groups@[i as int]@);
            }
            if bytes_eq(self.groups[i].group_name.as_slice(), name) {
                return Some(i);
            }
            i += 1;
        }
        None
    }

    /// Create a group with the given name; the name doubles as the group
    /// identifier. A duplicate identifier is an error and changes nothing.
    pub fn create_group(&mut self, name: Vec<u8>) -> (r: Result<(), String>)
        requires
            old(self).wf(),
        ensures
            final(self).wf(),
            old(self).same_identity(*final(self)),
            final(self).key_packages_view() == old(self).key_packages_view(),
            final(self).contacts_view() == old(self).contacts_view(),
            has_group(old(self).groups_view(), name@) ==> r is Err,
            r is Ok ==> !has_group(old(self).groups_view(), name@) && final(self).groups_view()
                == old(self).groups_view().push(
                GroupV { name: name@, conversation: Seq::empty(), pending_commit: false },
            ),
            r is Err ==> final(self).groups_view() == old(self).groups_view(),
    {
        match self.find_group_index(name.as_slice()) {
            Some(_) => Err(String::from_str("Group existed already")),
            None => {
                match group_create(
                    &self.crypto,
                    &self.identity.signer,
                    &self.identity.credential_with_key,
                    name.as_slice(),
                ) {
                    None => Err(String::from_str("Failed to create MlsGroup")),
                    Some(mut mls_group) => {
                        let aad = aad_for(name.as_slice());
                        group_set_aad(&mut mls_group, aad.as_slice());
                        let g = Group {
                            group_name: name,
                            conversation: Conversation::new(),
                            mls_group,
                            pending_commit: false,
                        };
                        self.groups.push(g);
                        proof {
                            assert(gvs(self.groups@) =~= gvs(old(self).groups@).push(g@));
                        }
                        Ok(())
                    },
                }
            },
        }
    }

    /// Join a group from a welcome artifact; the group identifier is derived
    /// from the artifact, and a duplicate identifier is an error (no
    /// overwrite).
    pub fn join_group(&mut self, welcome: openmls::prelude::Welcome) -> (r: Result<(), String>)
        requires
            old(self).wf(),
        ensures
            final(self).wf(),
            old(self).same_identity(*final(self)),
            final(self).key_packages_view() == old(self).key_packages_view(),
            final(self).contacts_view() == old(self).contacts_view(),
            r is Ok ==> exists|gid: Seq<u8>|
                !has_group(old(self).groups_view(), gid) && final(self).groups_view() == old(
                    self,
                ).groups_view().push(
                    GroupV { name: gid, conversation: Seq::empty(), pending_commit: false },
                ),
            r is Err ==> final(self).groups_view() == old(self).groups_view(),
    {
        let (gid, mut mls_group) = match group_join(&self.crypto, welcome) {
            None => {
                return Err(String::from_str("Failed to create MlsGroup from welcome"));
            },
            Some(x) => x,
        };
        let aad = aad_for(gid.as_slice());
        group_set_aad(&mut mls_group, aad.as_slice());
        match self.find_group_index(gid.as_slice()) {
            Some(_) => Err(String::from_str("Group existed already")),
            None => {
                let ghost gidv = gid@;
                let g = Group {
                    group_name: gid,
                    conversation: Conversation::new(),
                    mls_group,
                    pending_commit: false,
                };
                self.groups.push(g);
                proof {
                    assert(gvs(self.groups@) =~= gvs(old(self).groups@).push(g@));
                    assert(g@.conversation =~= Seq::<String>::empty());
                    assert(g@ == GroupV {
                        name: gidv,
                        conversation: Seq::<String>::empty(),
                        pending_commit: false,
                    });
                    assert(!has_group(old(self).groups_view(), gidv));
                    assert(self.groups_view() == old(self).groups_view().push(
                        GroupV {
                            name: gidv,
                            conversation: Seq::<String>::empty(),
                            pending_commit: false,
                        },
                    ));
                    assert(exists|gid: Seq<u8>|
                        !has_group(old(self).groups_view(), gid) && self.groups_view() == old(
                            self,
                        ).groups_view().push(
                            GroupV {
                                name: gid,
                                conversation: Seq::empty(),
                                pending_commit: false,
                            },
                        )) by {
                        assert(!has_group(old(self).groups_view(), gidv) && self.groups_view()
                            == old(self).groups_view().push(
                            GroupV {
                                name: gidv,
                                conversation: Seq::empty(),
                                pending_commit: false,
                            },
                        ));
                    }
                }
                Ok(())
            },
        }
    }

    /// Ask the engine to encrypt an application message for a group and
    /// compute its recipient set. The local conversation log is deliberately
    /// not updated with the sender's own message: the sender reconciles it
    /// through a later receive cycle.
    pub fn send_msg(&mut self, msg: &[u8], group: &[u8]) -> (r: Result<OutboundMessage, String>)
        requires
            old(self).wf(),
        ensures
            final(self).wf(),
            old(self).same_identity(*final(self)),
            final(self).key_packages_view() == old(self).key_packages_view(),
            final(self).contacts_view() == old(self).contacts_view(),
            final(self).groups_view() == old(self).groups_view(),
            !has_group(old(self).groups_view(), group@) ==> r is Err,
            r matches Ok(o) ==> has_group(old(self).groups_view(), group@) && o.welcome is None,
    {
        let idx = match self.find_group_index(group) {
            None => {
                return Err(String::from_str("Unknown group"));
            },
            Some(i) => i,
        };
        let ghost gs0 = self.groups@;
        let mut g = self.groups.remove(idx);
        let message = match group_create_message(
            &mut g.mls_group,
            &self.crypto,
            &self.identity.signer,
            msg,
        ) {
            Err(e) => {
                self.groups.insert(idx, g);
                proof {
                    assert(self.groups@ =~= gs0.update(idx as int, g));
                    assert(gvs(self.groups@) =~= gvs(gs0));
                }
                return Err(e);
            },
            Ok(m) => m,
        };
        let members = group_members(&g.mls_group);
        let recips = match recipients(&members, &self.contacts, self.identity.signature_key.as_slice()) {
            Err(e) => {
                self.groups.insert(idx, g);
                proof {
                    assert(self.groups@ =~= gs0.update(idx as int, g));
                    assert(gvs(self.groups@) =~= gvs(gs0));
                }
                return Err(e);
            },
            Ok(v) => v,
        };
        self.groups.insert(idx, g);
        proof {
            assert(self.groups@ =~= gs0.update(idx as int, g));
            assert(gvs(self.groups@) =~= gvs(gs0));
        }
        Ok(OutboundMessage { message, welcome: None, recipients: recips })
    }

    /// First phase of inviting a contact: stage an add-member commit and
    /// return the commit for all current members plus the welcome for the
    /// joiner. Nothing is merged locally until `complete_commit` confirms
    /// that the commit was delivered; on any failure the group is left as it
    /// was.
    pub fn invite(
        &mut self,
        name: &[u8],
        group: &[u8],
        joiner_key_package: openmls::prelude::KeyPackage,
    ) -> (r: Result<OutboundMessage, String>)
        requires
            old(self).wf(),
        ensures
            final(self).wf(),
            old(self).same_identity(*final(self)),
            final(self).key_packages_view() == old(self).key_packages_view(),
            final(self).contacts_view() == old(self).contacts_view(),
            !has_contact_named(old(self).contacts_seq(), name@) ==> r is Err,
            !has_group(old(self).groups_view(), group@) ==> r is Err,
            r is Err ==> final(self).groups_view() == old(self).groups_view(),
            r matches Ok(o) ==> o.welcome is Some && exists|j: int|
                0 <= j < old(self).groups_view().len() && (#[trigger] old(self).groups_view()[j]).name
                    == group@ && final(self).groups_view() == old(self).groups_view().update(
                    j,
                    GroupV {
                        name: old(self).groups_view()[j].name,
                        conversation: old(self).groups_view()[j].conversation,
                        pending_commit: true,
                    },
                ),
    {
        if self.find_contact_by_name(name).is_none() {
            return Err(String::from_str("No contact with that name known"));
        }
        let idx = match self.find_group_index(group) {
            None => {
                return Err(String::from_str("Unknown group"));
            },
            Some(i) => i,
        };
        let ghost gs0 = self.groups@;
        let mut g = self.groups.remove(idx);
        let (commit, welcome) = match group_add_member(
            &mut g.mls_group,
            &self.crypto,
            &self.identity.signer,
            joiner_key_package,
        ) {
            Err(e) => {
                self.groups.insert(idx, g);
                proof {
                    assert(self.groups@ =~= gs0.update(idx as int, g));
                    assert(gvs(self.groups@) =~= gvs(gs0));
                }
                return Err(e);
            },
            Ok(x) => x,
        };
        let members = group_members(&g.mls_group);
        match recipients(&members, &self.contacts, self.identity.signature_key.as_slice()) {
            Err(e) => {
                group_clear_pending_commit(&mut g.mls_group);
                self.groups.insert(idx, g);
                proof {
                    assert(self.groups@ =~= gs0.update(idx as int, g));
                    assert(gvs(self.groups@) =~= gvs(gs0));
                }
                Err(e)
            },
            Ok(recips) => {
                g.pending_commit = true;
                self.groups.insert(idx, g);
                proof {
                    assert(self.groups@ =~= gs0.update(idx as int, g));
                    assert(gvs(self.groups@) =~= gvs(gs0).update(idx as int, g@));
                    assert(gvs(gs0)[idx as int] == gs0[idx as int]@);
                    assert(old(self).groups_view()[idx as int].name == group@);
                    assert(self.groups_view() == old(self).groups_view().update(
                        idx as int,
                        GroupV {
                            name: old(self).groups_view()[idx as int].name,
                            conversation: old(self).groups_view()[idx as int].conversation,
                            pending_commit: true,
                        },
                    ));
                }
                Ok(OutboundMessage { message: commit, welcome: Some(welcome), recipients: recips })
            },
        }
    }

    /// Remove the named member from a group: stage a remove commit and return
    /// it for delivery to all current members (the removed member included);
    /// merging waits for `complete_commit`.
    pub fn remove(&mut self, name: &[u8], group: &[u8]) -> (r: Result<OutboundMessage, String>)
        requires
            old(self).wf(),
        ensures
            final(self).wf(),
            old(self).same_identity(*final(self)),
            final(self).key_packages_view() == old(self).key_packages_view(),
            final(self).contacts_view() == old(self).contacts_view(),
            !has_group(old(self).groups_view(), group@) ==> r is Err,
            r is Err ==> final(self).groups_view() == old(self).groups_view(),
            r matches Ok(o) ==> o.welcome is None && exists|j: int|
                0 <= j < old(self).groups_view().len() && (#[trigger] old(self).groups_view()[j]).name
                    == group@ && final(self).groups_view() == old(self).groups_view().update(
                    j,
                    GroupV {
                        name: old(self).groups_view()[j].name,
                        conversation: old(self).groups_view()[j].conversation,
                        pending_commit: true,
                    },
                ),
    {
        let idx = match self.find_group_index(group) {
            None => {
                return Err(String::from_str("Unknown group"));
            },
            Some(i) => i,
        };
        let ghost gs0 = self.groups@;
        let mut g = self.groups.remove(idx);
        let members = group_members(&g.mls_group);
        let leaf_index = match find_member_index(name, &members) {
            Err(e) => {
                self.groups.insert(idx, g);
                proof {
                    assert(self.groups@ =~= gs0.update(idx as int, g));
                    assert(gvs(self.groups@) =~= gvs(gs0));
                }
                return Err(e);
            },
            Ok(ix) => ix,
        };
        let commit = match group_remove_member(
            &mut g.mls_group,
            &self.crypto,
            &self.identity.signer,
            leaf_index,
        ) {
            Err(e) => {
                self.groups.insert(idx, g);
                proof {
                    assert(self.groups@ =~= gs0.update(idx as int, g));
                    assert(gvs(self.groups@) =~= gvs(gs0));
                }
                return Err(e);
            },
            Ok(c) => c,
        };
        match recipients(&members, &self.contacts, self.identity.signature_key.as_slice()) {
            Err(e) => {
                group_clear_pending_commit(&mut g.mls_group);
                self.groups.insert(idx, g);
                proof {
                    assert(self.groups@ =~= gs0.update(idx as int, g));
                    assert(gvs(self.groups@) =~= gvs(gs0));
                }
                Err(e)
            },
            Ok(recips) => {
                g.pending_commit = true;
                self.groups.insert(idx, g);
                proof {
                    assert(self.groups@ =~= gs0.update(idx as int, g));
                    assert(gvs(self.groups@) =~= gvs(gs0).update(idx as int, g@));
                    assert(gvs(gs0)[idx as int] == gs0[idx as int]@);
                    assert(old(self).groups_view()[idx as int].name == group@);
                    assert(self.groups_view() == old(self).groups_view().update(
                        idx as int,
                        GroupV {
                            name: old(self).groups_view()[idx as int].name,
                            conversation: old(self).groups_view()[idx as int].conversation,
                            pending_commit: true,
                        },
                    ));
                }
                Ok(OutboundMessage { message: commit, welcome: None, recipients: recips })
            },
        }
    }

    /// Second phase of a membership change. Only after the caller reports
    /// successful delivery is the staged commit merged locally; a failed
    /// delivery discards the staged commit and leaves the group exactly as it
    /// was before the attempt.
    pub fn complete_commit(&mut self, group: &[u8], delivered: bool) -> (r: Result<(), String>)
        requires
            old(self).wf(),
        ensures
            final(self).wf(),
            old(self).same_identity(*final(self)),
            final(self).key_packages_view() == old(self).key_packages_view(),
            final(self).contacts_view() == old(self).contacts_view(),
            !has_group(old(self).groups_view(), group@) ==> r is Err && final(self).groups_view()
                == old(self).groups_view(),
            r is Err ==> final(self).groups_view() == old(self).groups_view(),
            r is Ok ==> exists|j: int|
                0 <= j < old(self).groups_view().len() && (#[trigger] old(self).groups_view()[j]).name
                    == group@ && final(self).groups_view() == old(self).groups_view().update(
                    j,
                    GroupV {
                        name: old(self).groups_view()[j].name,
                        conversation: old(self).groups_view()[j].conversation,
                        pending_commit: false,
                    },
                ),
            !delivered && has_group(old(self).groups_view(), group@) ==> r is Ok,
    {
        let idx = match self.find_group_index(group) {
            None => {
                return Err(String::from_str("Unknown group"));
            },
            Some(i) => i,
        };
        let ghost gs0 = self.groups@;
        let mut g = self.groups.remove(idx);
        if !delivered {
            group_clear_pending_commit(&mut g.mls_group);
            g.pending_commit = false;
            self.groups.insert(idx, g);
            proof {
                assert(self.groups@ =~= gs0.update(idx as int, g));
                assert(gvs(self.groups@) =~= gvs(gs0).update(idx as int, g@));
                assert(gvs(gs0)[idx as int] == gs0[idx as int]@);
                assert(old(self).groups_view()[idx as int].name == group@);
                assert(self.groups_view() == old(self).groups_view().update(
                    idx as int,
                    GroupV {
                        name: old(self).groups_view()[idx as int].name,
                        conversation: old(self).groups_view()[idx as int].conversation,
                        pending_commit: false,
                    },
                ));
            }
            Ok(())
        } else {
            match group_merge_pending_commit(&mut g.mls_group, &self.crypto) {
                Ok(_) => {
                    g.pending_commit = false;
                    self.groups.insert(idx, g);
                    proof {
                        assert(self.groups@ =~= gs0.update(idx as int, g));
                        assert(gvs(self.groups@) =~= gvs(gs0).update(idx as int, g@));
                        assert(gvs(gs0)[idx as int] == gs0[idx as int]@);
                        assert(old(self).groups_view()[idx as int].name == group@);
                        assert(self.groups_view() == old(self).groups_view().update(
                            idx as int,
                            GroupV {
                                name: old(self).groups_view()[idx as int].name,
                                conversation: old(self).groups_view()[idx as int].conversation,
                                pending_commit: false,
                            },
                        ));
                    }
                    Ok(())
                },
                Err(e) => {
                    self.groups.insert(idx, g);
                    proof {
                        assert(self.groups@ =~= gs0.update(idx as int, g));
                        assert(gvs(self.groups@) =~= gvs(gs0));
                    }
                    Err(e)
                },
            }
        }
    }

    pub closed spec fn contacts_seq(self) -> Seq<Contact> {
        self.contacts@
    }

    /// The index of the contact with the given display name, if one is known.
    fn find_contact_by_name(&self, name: &[u8]) -> (r: Option<usize>)
        ensures
            match r {
                Some(i) => i < self.contacts@.len() && self.contacts@[i as int]@.username == name@,
                None => !has_contact_named(self.contacts@, name@),
            },
    {
        let mut i: usize = 0;
        while i < self.contacts.len()
            invariant
                i <= self.contacts@.len(),
                forall|j: int| 0 <= j < i ==> (#[trigger] self.contacts@[j])@.username != name@,
            decreases self.contacts@.len() - i,
        {
            if bytes_eq(self.contacts[i].username.as_slice(), name) {
                return Some(i);
            }
            i += 1;
        }
        None
    }

    /// The identity bytes of the contact with the given display name.
    pub fn contact_id_for(&self, name: &[u8]) -> (r: Option<Vec<u8>>)
        ensures
            match r {
                Some(v) => exists|i: int|
                    0 <= i < self.contacts_seq().len() && (#[trigger] self.contacts_seq()[i])@.username
                        == name@ && v@ == self.contacts_seq()[i]@.id,
                None => !has_contact_named(self.contacts_seq(), name@),
            },
    {
        match self.find_contact_by_name(name) {
            None => None,
            Some(i) => {
                let v = vstd::slice::slice_to_vec(self.contacts[i].id.as_slice());
                proof {
                    assert(self.contacts_seq()[i as int]@.username == name@ && v@
                        == self.contacts_seq()[i as int]@.id);
                }
                Some(v)
            },
        }
    }

    /// The most recent 100 messages sent to the group, in arrival order.
    pub fn read_msgs(&self, group_name: &[u8]) -> (r: Result<Vec<String>, String>)
        requires
            self.wf(),
        ensures
            match r {
                Ok(v) => exists|j: int|
                    0 <= j < self.groups_view().len() && (#[trigger] self.groups_view()[j]).name
                        == group_name@ && v@ == self.groups_view()[j].conversation.skip(
                        if self.groups_view()[j].conversation.len() <= 100 {
                            0int
                        } else {
                            self.groups_view()[j].conversation.len() - 100
                        },
                    ),
                Err(_) => !has_group(self.groups_view(), group_name@),
            },
    {
        match self.find_group_index(group_name) {
            None => Err(String::from_str("Unknown group")),
            Some(i) => {
                let v = self.groups[i].conversation.get(100);
                proof {
                    assert(gvs(self.groups@)[i as int] == self.groups@[i as int]@);
                    assert(self.groups_view()[i as int].name == group_name@);
                    assert(v@ == self.groups_view()[i as int].conversation.skip(
                        if self.groups_view()[i as int].conversation.len() <= 100 {
                            0int
                        } else {
                            self.groups_view()[i as int].conversation.len() - 100
                        },
                    ));
                }
                Ok(v)
            },
        }
    }

    /// Insert or replace one contact record, keyed by identity.
    fn put_contact(&mut self, c: Contact)
        requires
            old(self).wf(),
        ensures
            final(self).wf(),
            old(self).same_identity(*final(self)),
            final(self).key_packages_view() == old(self).key_packages_view(),
            final(self).groups_view() == old(self).groups_view(),
            final(self).contacts_view() == old(self).contacts_view().insert(c@.id, c@),
    {
        let ghost cs0 = self.contacts@;
        match find_contact_index_by_id(&self.contacts, c.id.as_slice()) {
            Some(i) => {
                self.contacts.remove(i);
                proof {
                    lemma_dir_remove(cs0, i as int);
                    assert(forall|x: int, y: int|
                        0 <= x < y < cs0.remove(i as int).len() ==> (#[trigger] cs0.remove(
                            i as int,
                        )[x])@.id != (#[trigger] cs0.remove(i as int)[y])@.id);
                }
                let ghost cs1 = self.contacts@;
                self.contacts.push(c);
                proof {
                    assert(self.contacts@.drop_last() =~= cs1);
                    assert(self.contacts@.last() == c);
                    assert(dir_map(cs0).remove(cs0[i as int]@.id).insert(c@.id, c@) =~= dir_map(
                        cs0,
                    ).insert(c@.id, c@));
                    assert(forall|j: int|
                        0 <= j < cs1.len() ==> (#[trigger] cs1[j])@.id != c@.id) by {
                        lemma_dir_contains(cs1, c@.id);
                    }
                }
            },
            None => {
                self.contacts.push(c);
                proof {
                    assert(self.contacts@.drop_last() =~= cs0);
                    assert(self.contacts@.last() == c);
                }
            },
        }
    }

    /// One directory refresh: insert-or-replace a contact for every listed
    /// client other than the local identity; stale contacts are retained.
    /// Applying the same client list twice yields the same directory.
    pub fn refresh(&mut self, clients: &Vec<ClientInfo>)
        requires
            old(self).wf(),
        ensures
            final(self).wf(),
            old(self).same_identity(*final(self)),
            final(self).key_packages_view() == old(self).key_packages_view(),
            final(self).groups_view() == old(self).groups_view(),
            final(self).contacts_view() == refresh_dir(
                old(self).contacts_view(),
                old(self).own_id(),
                cvs(clients@),
            ),
    {
        let ghost cl = cvs(clients@);
        let mut i: usize = 0;
        proof {
            assert(cl.take(0int) =~= Seq::<ClientInfoV>::empty());
        }
        while i < clients.len()
            invariant
                i <= clients@.len(),
                cl == cvs(clients@),
                self.wf(),
                old(self).same_identity(*self),
                self.key_packages_view() == old(self).key_packages_view(),
                self.groups_view() == old(self).groups_view(),
                self.contacts_view() == refresh_dir(
                    old(self).contacts_view(),
                    old(self).own_id(),
                    cl.take(i as int),
                ),
            decreases clients@.len() - i,
        {
            proof {
                assert(cl.take(i + 1int).drop_last() =~= cl.take(i as int));
                assert(cl.take(i + 1int).last() == cl[i as int]);
                assert(cl[i as int] == clients@[i as int]@);
            }
            if !bytes_eq(clients[i].id.as_slice(), self.identity.id.as_slice()) {
                let c = Contact {
                    username: vstd::slice::slice_to_vec(clients[i].client_name.as_slice()),
                    id: vstd::slice::slice_to_vec(clients[i].id.as_slice()),
                    key_packages: clone_bytes_list(&clients[i].key_packages),
                };
                proof {
                    assert(c@ == contact_of(cl[i as int]));
                }
                self.put_contact(c);
            }
            i += 1;
        }
        proof {
            assert(cl.take(clients@.len() as int) =~= cl);
        }
    }

    /// What a successful dispatch may have done: the routed group exists,
    /// and either nothing changed, or exactly that group's conversation grew
    /// by one message, surfaced to the caller when the filter matches.
    pub open spec fn dispatch_ok(
        pre: Seq<GroupV>,
        post: Seq<GroupV>,
        out0: Seq<String>,
        out1: Seq<String>,
        gid: Seq<u8>,
        filter: Option<Vec<u8>>,
    ) -> bool {
        exists|j: int|
            0 <= j < pre.len() && (#[trigger] pre[j]).name == gid && ((post == pre && out1 == out0)
                || (post == pre.update(
                j,
                GroupV {
                    name: pre[j].name,
                    conversation: pre[j].conversation.push(post[j].conversation.last()),
                    pending_commit: pre[j].pending_commit,
                },
            ) && out1 == if filter_matches(filter, gid) {
                out0.push(post[j].conversation.last())
            } else {
                out0
            }))
    }

    /// Route one protocol message to the session its embedded group
    /// identifier names. A failure changes nothing (the message is dropped);
    /// success touches at most that one group's conversation, and surfaces
    /// the application message when it matches the caller's filter. What each
    /// content kind may do is pinned exactly by `apply_processed`.
    pub fn dispatch_protocol(
        &mut self,
        gid: &[u8],
        message: openmls::prelude::ProtocolMessage,
        group_name: &Option<Vec<u8>>,
        out: &mut Vec<String>,
    ) -> (r: Result<(), String>)
        requires
            old(self).wf(),
        ensures
            final(self).wf(),
            old(self).same_identity(*final(self)),
            final(self).key_packages_view() == old(self).key_packages_view(),
            final(self).contacts_view() == old(self).contacts_view(),
            !has_group(old(self).groups_view(), gid@) ==> r is Err,
            r is Err ==> final(self).groups_view() == old(self).groups_view() && final(out)@
                == old(out)@,
            r is Ok ==> User::dispatch_ok(
                old(self).groups_view(),
                final(self).groups_view(),
                old(out)@,
                final(out)@,
                gid@,
                *group_name,
            ),
    {
        let idx = match self.find_group_index(gid) {
            None => {
                return Err(String::from_str("Unknown group"));
            },
            Some(i) => i,
        };
        let ghost gs0 = self.groups@;
        let mut g = self.groups.remove(idx);
        let processed = group_process_message(&mut g.mls_group, &self.crypto, message);
        self.groups.insert(idx, g);
        proof {
            assert(self.groups@ =~= gs0.update(idx as int, g));
            assert(gvs(self.groups@) =~= gvs(gs0));
            assert(self.groups_view() == old(self).groups_view());
            assert(self.groups_view()[idx as int].name == gid@);
        }
        match processed {
            Err(e) => Err(e),
            Ok(body) => self.apply_processed(gid, body, group_name, out),
        }
    }

    /// Apply what the engine made of one protocol message to the named
    /// group, exactly by content kind: a proposal or an external-join
    /// proposal is accepted with no local state effect; application bytes
    /// are appended to that group's conversation precisely when they decode
    /// as text, surfaced to the caller when the filter matches; a staged
    /// commit is merged into the engine state and never touches the
    /// conversation.
    pub fn apply_processed(
        &mut self,
        gid: &[u8],
        body: ProcessedBody,
        group_name: &Option<Vec<u8>>,
        out: &mut Vec<String>,
    ) -> (r: Result<(), String>)
        requires
            old(self).wf(),
        ensures
            final(self).wf(),
            old(self).same_identity(*final(self)),
            final(self).key_packages_view() == old(self).key_packages_view(),
            final(self).contacts_view() == old(self).contacts_view(),
            !has_group(old(self).groups_view(), gid@) ==> r is Err && final(self).groups_view()
                == old(self).groups_view() && final(out)@ == old(out)@,
            has_group(old(self).groups_view(), gid@) ==> match body {
                ProcessedBody::Proposal => r is Ok && final(self).groups_view() == old(
                    self,
                ).groups_view() && final(out)@ == old(out)@,
                ProcessedBody::ExternalJoin => r is Ok && final(self).groups_view() == old(
                    self,
                ).groups_view() && final(out)@ == old(out)@,
                ProcessedBody::Commit(_) => final(self).groups_view() == old(self).groups_view()
                    && final(out)@ == old(out)@,
                ProcessedBody::Application(bytes) => match utf8_of(bytes@) {
                    None => r is Err && final(self).groups_view() == old(self).groups_view()
                        && final(out)@ == old(out)@,
                    Some(text) => r is Ok && exists|j: int|
                        0 <= j < old(self).groups_view().len() && (#[trigger] old(
                            self,
                        ).groups_view()[j]).name == gid@ && final(self).groups_view() == old(
                            self,
                        ).groups_view().update(
                            j,
                            GroupV {
                                name: old(self).groups_view()[j].name,
                                conversation: old(self).groups_view()[j].conversation.push(
                                    final(self).groups_view()[j].conversation.last(),
                                ),
                                pending_commit: old(self).groups_view()[j].pending_commit,
                            },
                        ) && final(self).groups_view()[j].conversation.last()@ == text
                            && final(out)@ == (if filter_matches(*group_name, gid@) {
                            old(out)@.push(final(self).groups_view()[j].conversation.last())
                        } else {
                            old(out)@
                        }),
                },
            },
            r is Err ==> final(self).groups_view() == old(self).groups_view() && final(out)@
                == old(out)@,
            r is Ok ==> User::dispatch_ok(
                old(self).groups_view(),
                final(self).groups_view(),
                old(out)@,
                final(out)@,
                gid@,
                *group_name,
            ),
    {
        let idx = match self.find_group_index(gid) {
            None => {
                return Err(String::from_str("Unknown group"));
            },
            Some(i) => i,
        };
        let ghost gs0 = self.groups@;
        match body {
            ProcessedBody::Proposal => {
                proof {
                    assert(User::dispatch_ok(
                        old(self).groups_view(),
                        self.groups_view(),
                        old(out)@,
                        out@,
                        gid@,
                        *group_name,
                    ));
                }
                Ok(())
            },
            ProcessedBody::ExternalJoin => {
                proof {
                    assert(User::dispatch_ok(
                        old(self).groups_view(),
                        self.groups_view(),
                        old(out)@,
                        out@,
                        gid@,
                        *group_name,
                    ));
                }
                Ok(())
            },
            ProcessedBody::Application(bytes) => {
                match utf8_string(bytes) {
                    None => Err(String::from_str("Invalid UTF-8 in application message")),
                    Some(text) => {
                        let deliver = match group_name {
                            None => true,
                            Some(f) => bytes_eq(f.as_slice(), gid),
                        };
                        let ghost textv = text;
                        if deliver {
                            out.push(text.clone());
                        }
                        let mut g = self.groups.remove(idx);
                        g.conversation.add(text);
                        self.groups.insert(idx, g);
                        proof {
                            assert(self.groups@ =~= gs0.update(idx as int, g));
                            assert(gvs(self.groups@) =~= gvs(gs0).update(idx as int, g@));
                            assert(gvs(gs0)[idx as int] == gs0[idx as int]@);
                            assert(old(self).groups_view()[idx as int].name == gid@);
                            assert(deliver == filter_matches(*group_name, gid@));
                            assert(self.groups_view() == old(self).groups_view().update(
                                idx as int,
                                GroupV {
                                    name: old(self).groups_view()[idx as int].name,
                                    conversation: old(self).groups_view()[
                                        idx as int
                                    ].conversation.push(textv),
                                    pending_commit: old(self).groups_view()[
                                        idx as int
                                    ].pending_commit,
                                },
                            ));
                            assert(self.groups_view()[idx as int].conversation.last() == textv);
                            assert(out@ == (if filter_matches(*group_name, gid@) {
                                old(out)@.push(textv)
                            } else {
                                old(out)@
                            }));
                            assert(User::dispatch_ok(
                                old(self).groups_view(),
                                self.groups_view(),
                                old(out)@,
                                out@,
                                gid@,
                                *group_name,
                            ));
                        }
                        Ok(())
                    },
                }
            },
            ProcessedBody::Commit(commit) => {
                let mut g = self.groups.remove(idx);
                let merged = group_merge_staged_commit(&mut g.mls_group, &self.crypto, commit);
                self.groups.insert(idx, g);
                proof {
                    assert(self.groups@ =~= gs0.update(idx as int, g));
                    assert(gvs(self.groups@) =~= gvs(gs0));
                    assert(self.groups_view() == old(self).groups_view());
                    assert(old(self).groups_view()[idx as int].name == gid@);
                    assert(User::dispatch_ok(
                        old(self).groups_view(),
                        self.groups_view(),
                        old(out)@,
                        out@,
                        gid@,
                        *group_name,
                    ));
                }
                match merged {
                    Ok(_) => Ok(()),
                    Err(e) => Err(e),
                }
            },
        }
    }

    /// Drain a batch of inbound artifacts, then refresh the contact
    /// directory, and return the collected application messages matching the
    /// caller's optional group filter, in arrival order.
    ///
    /// A welcome joins its group; a protocol message is routed by embedded
    /// group identifier, and a message that cannot be routed or processed is
    /// dropped without aborting the batch; an artifact of unsupported shape
    /// aborts the operation.
    pub fn update(
        &mut self,
        inbound: Vec<openmls::prelude::MlsMessageIn>,
        clients: &Vec<ClientInfo>,
        group_name: Option<Vec<u8>>,
    ) -> (r: Result<Vec<String>, String>)
        requires
            old(self).wf(),
        ensures
            final(self).wf(),
            old(self).same_identity(*final(self)),
            final(self).key_packages_view() == old(self).key_packages_view(),
            groups_preserved(old(self).groups_view(), final(self).groups_view()),
            inbound@.len() == 0 ==> r is Ok,
            r is Ok ==> final(self).contacts_view() == refresh_dir(
                old(self).contacts_view(),
                old(self).own_id(),
                cvs(clients@),
            ),
            r is Err ==> final(self).contacts_view() == old(self).contacts_view(),
    {
        let ghost batch = inbound@;
        let mut inbound = inbound;
        let mut messages_out: Vec<String> = Vec::new();
        #[verifier::loop_isolation(false)]
        while inbound.len() > 0
            invariant
                batch.len() == 0 ==> inbound@.len() == 0,
                self.wf(),
                old(self).same_identity(*self),
                self.key_packages_view() == old(self).key_packages_view(),
                self.contacts_view() == old(self).contacts_view(),
                groups_preserved(old(self).groups_view(), self.groups_view()),
            decreases inbound@.len(),
        {
            let message = inbound.remove(0);
            match message_extract(message) {
                InboundBody::Welcome(welcome) => {
                    match self.join_group(welcome) {
                        Ok(_) => (),
                        Err(e) => {
                            return Err(e);
                        },
                    }
                },
                InboundBody::Protocol(protocol_message) => {
                    let gid = protocol_message_group_id(&protocol_message);
                    let _ = self.dispatch_protocol(
                        gid.as_slice(),
                        protocol_message,
                        &group_name,
                        &mut messages_out,
                    );
                },
                InboundBody::Unsupported => {
                    return Err(String::from_str("Unsupported message type"));
                },
            }
        }
        self.refresh(clients);
        Ok(messages_out)
    }
}

/// The additional authenticated data of a group: its identifier followed by
/// the ASCII bytes of " AAD".
fn aad_for(group_id: &[u8]) -> (r: Vec<u8>)
    ensures
        r@ == group_id@ + seq![32u8, 65u8, 65u8, 68u8],
{
    let mut r = vstd::slice::slice_to_vec(group_id);
    r.push(32);
    r.push(65);
    r.push(65);
    r.push(68);
    proof {
        assert(r@ =~= group_id@ + seq![32u8, 65u8, 65u8, 68u8]);
    }
    r
}

/// Copy a list of byte vectors.
fn clone_bytes_list(v: &Vec<Vec<u8>>) -> (r: Vec<Vec<u8>>)
    ensures
        vvs(r@) == vvs(v@),
{
    let mut out: Vec<Vec<u8>> = Vec::new();
    let mut i: usize = 0;
    while i < v.len()
        invariant
            i <= v@.len(),
            out@.len() == i,
            forall|j: int| 0 <= j < i ==> (#[trigger] out@[j])@ == v@[j]@,
        decreases v@.len() - i,
    {
        out.push(vstd::slice::slice_to_vec(v[i].as_slice()));
        i += 1;
    }
    proof {
        assert(vvs(out@) =~= vvs(v@));
    }
    out
}

} // verus!
