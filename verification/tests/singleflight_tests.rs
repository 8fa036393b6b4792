use cdn_client::singleflight::{Admission, SessionRegistry};

#[test]
fn first_caller_owns() {
    let mut reg = SessionRegistry::new();
    let key = String::from("video-1");
    assert_eq!(reg.begin(&key), Admission::Owner);
}

#[test]
fn concurrent_callers_wait() {
    let mut reg = SessionRegistry::new();
    let key = String::from("video-1");
    assert_eq!(reg.begin(&key), Admission::Owner);
    // every further caller for the same key, while the session is active,
    // awaits the one outcome instead of starting a duplicate fetch
    assert_eq!(reg.begin(&key), Admission::Waiter);
    assert_eq!(reg.begin(&key), Admission::Waiter);
    assert_eq!(reg.begin(&key), Admission::Waiter);
}

#[test]
fn different_keys_are_independent() {
    let mut reg = SessionRegistry::new();
    assert_eq!(reg.begin(&String::from("a")), Admission::Owner);
    assert_eq!(reg.begin(&String::from("b")), Admission::Owner);
    assert_eq!(reg.begin(&String::from("a")), Admission::Waiter);
}

#[test]
fn finish_releases_the_key() {
    let mut reg = SessionRegistry::new();
    let key = String::from("video-1");
    assert_eq!(reg.begin(&key), Admission::Owner);
    assert_eq!(reg.begin(&key), Admission::Waiter);
    reg.finish(&key);
    assert_eq!(reg.begin(&key), Admission::Owner);
}
