use token_lockup::Lockup;
use token_lockup::LockupContract;
use token_lockup::LockupError;
use token_lockup::MARKER_DEPOSIT;
use token_lockup::STORAGE_DEPOSIT;

fn b(s: &str) -> Vec<u8> {
    s.as_bytes().to_vec()
}

fn new_contract() -> LockupContract {
    LockupContract::new(0, b("service"), b("admin"))
}

fn fund(
    c: &mut LockupContract,
    account: &str,
    amount: u128,
    msg: &str,
    now: u64,
) -> Result<u128, LockupError> {
    let token = c.pool_token_id();
    c.mft_on_transfer(&b("service"), &token, b(account), amount, &b(msg), now)
}

#[test]
fn register_wrong_fee_fails() {
    let mut c = new_contract();
    let r = c.register_lockup(&b("alice"), STORAGE_DEPOSIT - 1, 100);
    assert_eq!(r, Err(LockupError::WrongAttachedDeposit));
    let r = c.register_lockup(&b("alice"), 0, 100);
    assert_eq!(r, Err(LockupError::WrongAttachedDeposit));
    let r = c.register_lockup(&b("alice"), STORAGE_DEPOSIT + 1, 100);
    assert_eq!(r, Err(LockupError::WrongAttachedDeposit));
    assert_eq!(c.get_lockups(0, u64::MAX), vec![]);
    assert_eq!(c.get_lockup(&b("alice")), None);
}

#[test]
fn register_creates_empty_lockup() {
    let mut c = new_contract();
    let r = c.register_lockup(&b("alice"), STORAGE_DEPOSIT, 123);
    assert_eq!(r, Ok(()));
    assert_eq!(
        c.get_lockup(&b("alice")),
        Some(Lockup { amount: 0, duration_ns: 0, timestamp: 123 })
    );
}

#[test]
fn register_twice_fails() {
    let mut c = new_contract();
    assert_eq!(c.register_lockup(&b("alice"), STORAGE_DEPOSIT, 123), Ok(()));
    let r = c.register_lockup(&b("alice"), STORAGE_DEPOSIT, 456);
    assert_eq!(r, Err(LockupError::AlreadyRegistered));
    // The failing call changed nothing: the original lockup is intact.
    assert_eq!(
        c.get_lockup(&b("alice")),
        Some(Lockup { amount: 0, duration_ns: 0, timestamp: 123 })
    );
    assert_eq!(c.get_lockups(0, u64::MAX).len(), 1);
}

#[test]
fn fund_unregistered_creates_lockup() {
    let mut c = new_contract();
    let r = fund(&mut c, "alice", 500, "1000000000", 2000);
    assert_eq!(r, Ok(0));
    assert_eq!(
        c.get_lockup(&b("alice")),
        Some(Lockup { amount: 500, duration_ns: 1_000_000_000, timestamp: 2000 })
    );
}

#[test]
fn fund_merge_accumulates_amount() {
    let mut c = new_contract();
    assert_eq!(fund(&mut c, "alice", 500, "1000000000", 2000), Ok(0));
    // New release 3000 + 2000000000 >= old release 1000002000: merged.
    let r = fund(&mut c, "alice", 300, "2000000000", 3000);
    assert_eq!(r, Ok(0));
    assert_eq!(
        c.get_lockup(&b("alice")),
        Some(Lockup { amount: 800, duration_ns: 2_000_000_000, timestamp: 3000 })
    );
}

#[test]
fn fund_shortening_fails_and_keeps_lockup() {
    let mut c = new_contract();
    assert_eq!(fund(&mut c, "alice", 500, "1000000000", 2000), Ok(0));
    let r = fund(&mut c, "alice", 100, "1", 3000);
    assert_eq!(r, Err(LockupError::ShortenedRelease));
    // A shorter duration whose release 3000 + 500000000 still precedes the
    // old release 2000 + 1000000000 is rejected as well.
    let r = fund(&mut c, "alice", 300, "500000000", 3000);
    assert_eq!(r, Err(LockupError::ShortenedRelease));
    assert_eq!(
        c.get_lockup(&b("alice")),
        Some(Lockup { amount: 500, duration_ns: 1_000_000_000, timestamp: 2000 })
    );
}

#[test]
fn fund_untrusted_service_fails() {
    let mut c = new_contract();
    let token = c.pool_token_id();
    let r = c.mft_on_transfer(&b("mallory"), &token, b("alice"), 500, &b("1"), 2000);
    assert_eq!(r, Err(LockupError::UntrustedService));
    assert_eq!(c.get_lockup(&b("alice")), None);
}

#[test]
fn fund_wrong_token_fails() {
    let mut c = new_contract();
    let r = c.mft_on_transfer(&b("service"), &b(":1"), b("alice"), 500, &b("1"), 2000);
    assert_eq!(r, Err(LockupError::WrongToken));
    // A non-canonical spelling of the right pool number is also rejected.
    let r = c.mft_on_transfer(&b("service"), &b(":00"), b("alice"), 500, &b("1"), 2000);
    assert_eq!(r, Err(LockupError::WrongToken));
    let r = c.mft_on_transfer(&b("service"), &b("0"), b("alice"), 500, &b("1"), 2000);
    assert_eq!(r, Err(LockupError::WrongToken));
    assert_eq!(c.get_lockup(&b("alice")), None);
}

#[test]
fn fund_malformed_duration_fails() {
    let mut c = new_contract();
    for msg in ["", "abc", "-5", "1e9", "10 ", "184467440737095516160", "+", "++5", "+-5"] {
        let r = fund(&mut c, "alice", 500, msg, 2000);
        assert_eq!(r, Err(LockupError::MalformedDuration));
    }
    assert_eq!(c.get_lockup(&b("alice")), None);
}

#[test]
fn fund_with_signed_duration_parses() {
    // An unsigned 64-bit parse admits one leading plus sign.
    let mut c = new_contract();
    assert_eq!(fund(&mut c, "alice", 10, "+5", 100), Ok(0));
    assert_eq!(
        c.get_lockup(&b("alice")),
        Some(Lockup { amount: 10, duration_ns: 5, timestamp: 100 })
    );
}

#[test]
fn fund_maximal_duration_parses() {
    let mut c = new_contract();
    let r = fund(&mut c, "alice", 1, "18446744073709551615", 0);
    assert_eq!(r, Ok(0));
    assert_eq!(
        c.get_lockup(&b("alice")),
        Some(Lockup { amount: 1, duration_ns: u64::MAX, timestamp: 0 })
    );
    // One more than the maximum does not fit in 64 bits.
    let mut c = new_contract();
    let r = fund(&mut c, "alice", 1, "18446744073709551616", 0);
    assert_eq!(r, Err(LockupError::MalformedDuration));
}

#[test]
fn pool_token_id_is_canonical() {
    let c = LockupContract::new(12345, b("service"), b("admin"));
    assert_eq!(c.pool_token_id(), b":12345");
    let c = new_contract();
    assert_eq!(c.pool_token_id(), b":0");
}

#[test]
fn withdraw_needs_marker_deposit() {
    let mut c = new_contract();
    assert_eq!(fund(&mut c, "alice", 500, "10", 0), Ok(0));
    assert_eq!(c.set_audited(&b("admin"), MARKER_DEPOSIT), Ok(()));
    let r = c.withdraw(&b("alice"), 0, 1_000_000);
    assert_eq!(r, Err(LockupError::WrongAttachedDeposit));
    let r = c.withdraw(&b("alice"), 2, 1_000_000);
    assert_eq!(r, Err(LockupError::WrongAttachedDeposit));
    assert!(c.get_lockup(&b("alice")).is_some());
}

#[test]
fn withdraw_fails_unaudited() {
    let mut c = new_contract();
    assert_eq!(fund(&mut c, "alice", 500, "10", 0), Ok(0));
    // Far past the release time, but the audit flag is still unset.
    let r = c.withdraw(&b("alice"), MARKER_DEPOSIT, u64::MAX);
    assert_eq!(r, Err(LockupError::NotAudited));
    assert!(c.get_lockup(&b("alice")).is_some());
}

#[test]
fn withdraw_fails_before_release() {
    let mut c = new_contract();
    assert_eq!(fund(&mut c, "alice", 500, "1000", 2000), Ok(0));
    assert_eq!(c.set_audited(&b("admin"), MARKER_DEPOSIT), Ok(()));
    // Release is at 3000; the call at 2999 is one nanosecond early.
    let r = c.withdraw(&b("alice"), MARKER_DEPOSIT, 2999);
    assert_eq!(r, Err(LockupError::NotReleased));
    assert_eq!(
        c.get_lockup(&b("alice")),
        Some(Lockup { amount: 500, duration_ns: 1000, timestamp: 2000 })
    );
}

#[test]
fn withdraw_without_lockup_fails() {
    let mut c = new_contract();
    assert_eq!(c.set_audited(&b("admin"), MARKER_DEPOSIT), Ok(()));
    let r = c.withdraw(&b("alice"), MARKER_DEPOSIT, 5000);
    assert_eq!(r, Err(LockupError::LockupNotFound));
}

#[test]
fn withdraw_removes_and_callback_settles() {
    let mut c = new_contract();
    assert_eq!(fund(&mut c, "alice", 500, "1000", 2000), Ok(0));
    assert_eq!(c.set_audited(&b("admin"), MARKER_DEPOSIT), Ok(()));
    // Exactly at the release time the withdrawal goes through.
    let pending = c.withdraw(&b("alice"), MARKER_DEPOSIT, 3000).unwrap();
    assert_eq!(pending.account_id, b("alice"));
    assert_eq!(pending.lockup, Lockup { amount: 500, duration_ns: 1000, timestamp: 2000 });
    assert_eq!(c.get_lockup(&b("alice")), None);

    // A failed transfer rolls the original lockup back.
    c.withdraw_callback(&pending.account_id, pending.lockup, false);
    assert_eq!(
        c.get_lockup(&b("alice")),
        Some(Lockup { amount: 500, duration_ns: 1000, timestamp: 2000 })
    );

    // Withdrawing again and completing successfully consumes the lockup.
    let pending = c.withdraw(&b("alice"), MARKER_DEPOSIT, 3000).unwrap();
    c.withdraw_callback(&pending.account_id, pending.lockup, true);
    assert_eq!(c.get_lockup(&b("alice")), None);
}

#[test]
fn rollback_overwrites_interim_state() {
    // The documented race: if the account re-registers while its withdrawal
    // is pending and the transfer then fails, the rollback overwrites the
    // interim entry with the stale pre-withdrawal lockup.
    let mut c = new_contract();
    assert_eq!(fund(&mut c, "alice", 500, "1000", 2000), Ok(0));
    assert_eq!(c.set_audited(&b("admin"), MARKER_DEPOSIT), Ok(()));
    let pending = c.withdraw(&b("alice"), MARKER_DEPOSIT, 3000).unwrap();
    assert_eq!(c.register_lockup(&b("alice"), STORAGE_DEPOSIT, 4000), Ok(()));
    assert_eq!(
        c.get_lockup(&b("alice")),
        Some(Lockup { amount: 0, duration_ns: 0, timestamp: 4000 })
    );
    c.withdraw_callback(&pending.account_id, pending.lockup, false);
    assert_eq!(
        c.get_lockup(&b("alice")),
        Some(Lockup { amount: 500, duration_ns: 1000, timestamp: 2000 })
    );
}

#[test]
fn set_audited_checks_caller_and_deposit() {
    let mut c = new_contract();
    assert_eq!(c.set_audited(&b("admin"), 0), Err(LockupError::WrongAttachedDeposit));
    assert_eq!(c.set_audited(&b("admin"), 2), Err(LockupError::WrongAttachedDeposit));
    assert_eq!(c.set_audited(&b("mallory"), MARKER_DEPOSIT), Err(LockupError::NotAdmin));
    assert!(!c.is_audited());
    assert_eq!(c.set_audited(&b("admin"), MARKER_DEPOSIT), Ok(()));
    assert!(c.is_audited());
}

#[test]
fn set_audited_is_idempotent() {
    let mut c = new_contract();
    assert_eq!(fund(&mut c, "alice", 500, "1000", 2000), Ok(0));
    assert_eq!(c.set_audited(&b("admin"), MARKER_DEPOSIT), Ok(()));
    assert!(c.is_audited());
    let before = c.get_lockups(0, u64::MAX);
    assert_eq!(c.set_audited(&b("admin"), MARKER_DEPOSIT), Ok(()));
    assert!(c.is_audited());
    assert_eq!(c.get_lockups(0, u64::MAX), before);
}

#[test]
fn get_lockups_paginates_in_key_order() {
    let mut c = new_contract();
    // Register in shuffled order; iteration must come back sorted.
    for (i, name) in ["cara", "alice", "eve", "bob", "dan"].iter().enumerate() {
        assert_eq!(c.register_lockup(&b(name), STORAGE_DEPOSIT, 100 + i as u64), Ok(()));
    }
    let sorted: Vec<(Vec<u8>, Lockup)> = vec![
        (b("alice"), Lockup { amount: 0, duration_ns: 0, timestamp: 101 }),
        (b("bob"), Lockup { amount: 0, duration_ns: 0, timestamp: 103 }),
        (b("cara"), Lockup { amount: 0, duration_ns: 0, timestamp: 100 }),
        (b("dan"), Lockup { amount: 0, duration_ns: 0, timestamp: 104 }),
        (b("eve"), Lockup { amount: 0, duration_ns: 0, timestamp: 102 }),
    ];
    assert_eq!(c.get_lockups(0, u64::MAX), sorted);
    for skip in 0..7u64 {
        for take in 0..7u64 {
            let lo = (skip as usize).min(sorted.len());
            let hi = (lo + take as usize).min(sorted.len());
            assert_eq!(c.get_lockups(skip, take), sorted[lo..hi].to_vec());
        }
    }
    // Skipping past the end and taking zero both give the empty page.
    assert_eq!(c.get_lockups(5, 1), vec![]);
    assert_eq!(c.get_lockups(100, u64::MAX), vec![]);
    assert_eq!(c.get_lockups(0, 0), vec![]);
}

#[test]
fn from_parts_round_trips_state() {
    let mut c = new_contract();
    assert_eq!(fund(&mut c, "alice", 500, "1000", 2000), Ok(0));
    assert_eq!(fund(&mut c, "bob", 7, "99", 2500), Ok(0));
    assert_eq!(c.set_audited(&b("admin"), MARKER_DEPOSIT), Ok(()));
    let entries = c.get_lockups(0, u64::MAX);
    let rebuilt = LockupContract::from_parts(
        c.config_pool_id(),
        c.config_service_address(),
        c.config_admin(),
        c.is_audited(),
        &entries,
    )
    .unwrap();
    assert_eq!(rebuilt.get_lockups(0, u64::MAX), entries);
    assert_eq!(rebuilt.config_pool_id(), 0);
    assert_eq!(rebuilt.config_service_address(), b("service"));
    assert_eq!(rebuilt.config_admin(), b("admin"));
    assert!(rebuilt.is_audited());
}

#[test]
fn from_parts_rejects_unrepresentable_release() {
    let entries = vec![
        (b("alice"), Lockup { amount: 1, duration_ns: 2, timestamp: u64::MAX - 1 }),
    ];
    let r = LockupContract::from_parts(0, b("service"), b("admin"), false, &entries);
    assert!(r.is_none());
}

#[test]
fn from_parts_later_duplicate_wins() {
    let entries = vec![
        (b("alice"), Lockup { amount: 1, duration_ns: 2, timestamp: 3 }),
        (b("alice"), Lockup { amount: 9, duration_ns: 8, timestamp: 7 }),
    ];
    let c = LockupContract::from_parts(0, b("service"), b("admin"), false, &entries).unwrap();
    assert_eq!(
        c.get_lockup(&b("alice")),
        Some(Lockup { amount: 9, duration_ns: 8, timestamp: 7 })
    );
    assert_eq!(c.get_lockups(0, u64::MAX).len(), 1);
}
