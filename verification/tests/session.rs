use mls_client::engine::message_extract;
use mls_client::engine::InboundBody;
use mls_client::user::ClientInfo;
use mls_client::user::User;
use openmls::prelude::KeyPackage;
use openmls::prelude::MlsMessageIn;
use openmls::prelude::MlsMessageOut;

fn client(name: &str) -> User {
    User::new(name.as_bytes().to_vec()).expect("engine refused to build identity")
}

fn client_info(u: &User) -> ClientInfo {
    ClientInfo { client_name: u.username().clone(), id: u.username().clone(), key_packages: vec![] }
}

fn take_key_package(u: &User) -> KeyPackage {
    u.key_packages()[0].1.clone()
}

fn inbound(m: MlsMessageOut) -> MlsMessageIn {
    MlsMessageIn::from(m)
}

fn join_from_welcome(u: &mut User, welcome: MlsMessageOut) {
    match message_extract(inbound(welcome)) {
        InboundBody::Welcome(w) => u.join_group(w).expect("join failed"),
        _ => panic!("expected a welcome artifact"),
    }
}

#[test]
fn duplicate_group_is_an_error() {
    let mut alice = client("alice");
    alice.create_group(b"friends".to_vec()).unwrap();
    let r = alice.create_group(b"friends".to_vec());
    assert!(r.is_err());
    // the session is still usable
    assert!(alice.read_msgs(b"friends").is_ok());
}

#[test]
fn read_msgs_unknown_group_is_an_error() {
    let alice = client("alice");
    assert!(alice.read_msgs(b"nowhere").is_err());
}

#[test]
fn send_to_unknown_group_is_an_error() {
    let mut alice = client("alice");
    assert!(alice.send_msg(b"hello", b"nowhere").is_err());
}

#[test]
fn invite_unknown_contact_is_an_error() {
    let mut alice = client("alice");
    let bob = client("bob");
    alice.create_group(b"friends".to_vec()).unwrap();
    let r = alice.invite(b"bob", b"friends", take_key_package(&bob));
    assert!(r.is_err());
}

#[test]
fn refresh_is_idempotent_and_skips_self() {
    let alice = client("alice");
    let bob = client("bob");
    let mut dave = client("dave");
    let list = vec![client_info(&alice), client_info(&bob), client_info(&dave)];
    dave.refresh(&list);
    dave.refresh(&list);
    assert_eq!(dave.contact_id_for(b"alice"), Some(b"alice".to_vec()));
    assert_eq!(dave.contact_id_for(b"bob"), Some(b"bob".to_vec()));
    // the local identity never becomes its own contact
    assert_eq!(dave.contact_id_for(b"dave"), None);
    assert_eq!(dave.contact_id_for(b"nobody"), None);
}

#[test]
fn invite_ordering_and_rollback_on_failed_delivery() {
    let mut alice = client("alice");
    let mut bob = client("bob");
    let mut charlie = client("charlie");
    let list = vec![client_info(&alice), client_info(&bob), client_info(&charlie)];
    alice.refresh(&list);
    bob.refresh(&list);

    alice.create_group(b"friends".to_vec()).unwrap();

    // bring bob in: nobody else is a member yet, so the commit has no recipients
    let first = alice.invite(b"bob", b"friends", take_key_package(&bob)).unwrap();
    assert_eq!(first.recipients.len(), 0);
    alice.complete_commit(b"friends", true).unwrap();
    join_from_welcome(&mut bob, first.welcome.unwrap());

    // inviting charlie: the commit is addressed to the existing member bob,
    // and it exists before anything is merged locally
    let attempt = alice.invite(b"charlie", b"friends", take_key_package(&charlie)).unwrap();
    assert_eq!(attempt.recipients, vec![b"bob".to_vec()]);
    assert!(attempt.welcome.is_some());

    // simulate a delivery failure: the local group must stay as it was
    alice.complete_commit(b"friends", false).unwrap();
    let probe = alice.send_msg(b"still just us", b"friends").unwrap();
    assert_eq!(probe.recipients, vec![b"bob".to_vec()]);

    // now the real run: deliver the commit to bob, merge, then hand over the welcome
    let retry = alice.invite(b"charlie", b"friends", take_key_package(&charlie)).unwrap();
    assert_eq!(retry.recipients, vec![b"bob".to_vec()]);
    let commit_for_bob = retry.message;
    alice.complete_commit(b"friends", true).unwrap();
    let delivered = bob.update(vec![inbound(commit_for_bob)], &list, None).unwrap();
    assert_eq!(delivered.len(), 0);
    join_from_welcome(&mut charlie, retry.welcome.unwrap());

    // the group now addresses both peers
    let send = alice.send_msg(b"hello all", b"friends").unwrap();
    assert_eq!(send.recipients.len(), 2);
    assert!(send.recipients.contains(&b"bob".to_vec()));
    assert!(send.recipients.contains(&b"charlie".to_vec()));

    // and both of them can decrypt it
    let for_bob = bob.update(vec![inbound(send.message.clone())], &list, None).unwrap();
    assert_eq!(for_bob, vec![String::from("hello all")]);
    charlie.refresh(&list);
    let for_charlie = charlie.update(vec![inbound(send.message)], &list, None).unwrap();
    assert_eq!(for_charlie, vec![String::from("hello all")]);
}

#[test]
fn dispatch_isolates_one_bad_message() {
    let mut alice = client("alice");
    let mut bob = client("bob");
    let list = vec![client_info(&alice), client_info(&bob)];
    alice.refresh(&list);
    bob.refresh(&list);

    alice.create_group(b"friends".to_vec()).unwrap();
    let invite = alice.invite(b"bob", b"friends", take_key_package(&bob)).unwrap();
    alice.complete_commit(b"friends", true).unwrap();
    join_from_welcome(&mut bob, invite.welcome.unwrap());

    let m1 = bob.send_msg(b"first", b"friends").unwrap();
    // a message for a group alice does not know: unroutable, must be dropped
    bob.create_group(b"private notes".to_vec()).unwrap();
    let bad = bob.send_msg(b"noise", b"private notes").unwrap();
    let m2 = bob.send_msg(b"second", b"friends").unwrap();

    let batch = vec![inbound(m1.message), inbound(bad.message), inbound(m2.message)];
    let msgs = alice.update(batch, &list, None).unwrap();
    assert_eq!(msgs, vec![String::from("first"), String::from("second")]);
    let conv = alice.read_msgs(b"friends").unwrap();
    assert_eq!(conv, vec![String::from("first"), String::from("second")]);
}

#[test]
fn update_filters_messages_by_group_name() {
    let mut alice = client("alice");
    let mut bob = client("bob");
    let list = vec![client_info(&alice), client_info(&bob)];
    alice.refresh(&list);
    bob.refresh(&list);

    alice.create_group(b"friends".to_vec()).unwrap();
    let invite = alice.invite(b"bob", b"friends", take_key_package(&bob)).unwrap();
    alice.complete_commit(b"friends", true).unwrap();
    join_from_welcome(&mut bob, invite.welcome.unwrap());

    let m1 = bob.send_msg(b"for friends", b"friends").unwrap();
    let filtered = alice
        .update(vec![inbound(m1.message)], &list, Some(b"elsewhere".to_vec()))
        .unwrap();
    // the message is logged in its conversation but not surfaced to the caller
    assert_eq!(filtered.len(), 0);
    let conv = alice.read_msgs(b"friends").unwrap();
    assert_eq!(conv, vec![String::from("for friends")]);
}

#[test]
fn remove_member_stages_commit_for_all_current_members() {
    let mut alice = client("alice");
    let mut bob = client("bob");
    let list = vec![client_info(&alice), client_info(&bob)];
    alice.refresh(&list);

    alice.create_group(b"friends".to_vec()).unwrap();
    let invite = alice.invite(b"bob", b"friends", take_key_package(&bob)).unwrap();
    alice.complete_commit(b"friends", true).unwrap();
    join_from_welcome(&mut bob, invite.welcome.unwrap());

    // removing an unknown member fails and changes nothing
    assert!(alice.remove(b"mallory", b"friends").is_err());

    let removal = alice.remove(b"bob", b"friends").unwrap();
    // the removed member still gets the commit: it is a current member
    assert_eq!(removal.recipients, vec![b"bob".to_vec()]);
    alice.complete_commit(b"friends", true).unwrap();
    let send = alice.send_msg(b"alone again", b"friends").unwrap();
    assert_eq!(send.recipients.len(), 0);
}

#[test]
fn add_key_package_publishes_one_more() {
    let mut alice = client("alice");
    let before = alice.key_packages().len();
    alice.add_key_package().unwrap();
    assert_eq!(alice.key_packages().len(), before + 1);
}
