use mls_client::conversation::Conversation;

#[test]
fn conversation_bound_returns_most_recent_100_in_order() {
    let mut c = Conversation::new();
    let mut i: usize = 0;
    while i < 150 {
        c.add(format!("message {}", i));
        i += 1;
    }
    assert_eq!(c.len(), 150);
    let recent = c.get(100);
    assert_eq!(recent.len(), 100);
    let mut j: usize = 0;
    while j < 100 {
        assert_eq!(recent[j], format!("message {}", j + 50));
        j += 1;
    }
}

#[test]
fn conversation_shorter_than_bound_returns_everything() {
    let mut c = Conversation::new();
    c.add(String::from("one"));
    c.add(String::from("two"));
    c.add(String::from("three"));
    let all = c.get(100);
    assert_eq!(all, vec![String::from("one"), String::from("two"), String::from("three")]);
    let last_two = c.get(2);
    assert_eq!(last_two, vec![String::from("two"), String::from("three")]);
    assert_eq!(c.get(0).len(), 0);
}
