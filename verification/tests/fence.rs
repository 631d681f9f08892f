use mielofon::controller::fence::Fence;

#[test]
fn acquire_then_block_second() {
    let mut f = Fence::new();
    let ok = f.acquire("agent-1", "sp1-cr", 30).unwrap();
    assert_eq!(ok.holder, "agent-1");
    let err = f.acquire("agent-2", "sp1-cr", 30).unwrap_err();
    assert_eq!(err.holder, "agent-1");
}

#[test]
fn expired_lease_can_be_taken_over() {
    let mut f = Fence::new();
    let l1 = f.acquire("agent-1", "sp1-cr", 0).unwrap();
    // ttl 0 => already expired
    let l2 = f.acquire("agent-2", "sp1-cr", 30).unwrap();
    assert_eq!(l2.holder, "agent-2");
    let _ = l1;
}

#[test]
fn release_only_with_token() {
    let mut f = Fence::new();
    let l = f.acquire("agent-1", "sp1-cr", 30).unwrap();
    assert!(!f.release("sp1-cr", "nope"));
    assert!(f.release("sp1-cr", &l.token));
    assert!(f.acquire("agent-2", "sp1-cr", 30).is_ok());
}

#[test]
fn lease_expiry_at_exact_ttl() {
    let mut f = Fence::new();
    let l = f.acquire_at("a", "link", 30, 1000, "t1".to_string()).unwrap();
    assert_eq!(l.issued_at, 1000);
    assert!(f.acquire_at("b", "link", 30, 1029, "t2".to_string()).is_err());
    let l2 = f.acquire_at("b", "link", 30, 1030, "t2".to_string()).unwrap();
    assert_eq!(l2.holder, "b");
    assert_eq!(l2.token, "t2");
    assert_eq!(f.leases().len(), 1);
}

#[test]
fn links_are_fenced_independently() {
    let mut f = Fence::new();
    assert!(f.acquire_at("a", "l1", 30, 0, "x".to_string()).is_ok());
    assert!(f.acquire_at("b", "l2", 30, 0, "y".to_string()).is_ok());
    assert_eq!(f.leases().len(), 2);
}

#[test]
fn granted_tokens_are_fresh_v4_uuids() {
    let mut f = Fence::new();
    let a = f.acquire("spoke-1", "l1", 60).unwrap();
    let b = f.acquire("spoke-1", "l2", 60).unwrap();
    for t in [&a.token, &b.token] {
        assert_eq!(t.len(), 36);
        assert_eq!(t.as_bytes()[14], b'4');
        assert!(t.chars().enumerate().all(|(i, c)| if [8, 13, 18, 23].contains(&i) { c == '-' } else { c.is_ascii_hexdigit() && !c.is_ascii_uppercase() }));
    }
    assert_ne!(a.token, b.token);
}
