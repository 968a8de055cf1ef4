//! The lockup state machine: registration, funding with an extend-only
//! policy, the audit gate, the two-phase withdrawal protocol, and queries.
//!
//! Every entry point takes the values the host runtime supplies (the caller's
//! identity, the attached payment in minimal units, the current time in
//! nanoseconds) as explicit arguments, mutates the contract state, and
//! returns an explicit result; a precondition violation returns an error and
//! leaves the state unchanged.

use vstd::prelude::*;

use crate::codec::parse_u64;
use crate::codec::parse_u64_bytes;
use crate::codec::pool_tag;
use crate::codec::render_u64;
use crate::lockup::Lockup;
use crate::order::KeyCmp;
use crate::order::clone_bytes;
use crate::order::lex_cmp;
use crate::store::LockupStore;
use crate::store::page_slice;
use crate::store::pairs_view;

verus! {

/// The storage fee that registration must attach, in minimal token units.
pub const STORAGE_DEPOSIT: u128 = 100_000_000_000_000_000_000_000;

/// The marker payment that withdrawal and the audit call must attach.
pub const MARKER_DEPOSIT: u128 = 1;

/// Why a call was rejected. Every error leaves the state unchanged.
#[derive(Clone, Copy, PartialEq, Eq, Structural, Debug)]
pub enum LockupError {
    /// The attached payment is not the exact required amount.
    WrongAttachedDeposit,
    /// A lockup already exists for the registering account.
    AlreadyRegistered,
    /// A deposit notification came from an account other than the configured
    /// transfer service.
    UntrustedService,
    /// The deposit names a token other than the configured pool.
    WrongToken,
    /// The deposit message does not parse as an unsigned 64-bit duration.
    MalformedDuration,
    /// The deposit would pull the release time of an existing lockup earlier.
    ShortenedRelease,
    /// Withdrawal is globally disabled until the audit flag is set.
    NotAudited,
    /// No lockup exists for the withdrawing account.
    LockupNotFound,
    /// The lock's duration has not elapsed yet.
    NotReleased,
    /// The audit call came from an account other than the administrator.
    NotAdmin,
}

/// The closure state of an initiated withdrawal: the account and the removed
/// lockup, carried to the completion handler so that a failed transfer can be
/// rolled back.
#[derive(PartialEq, Debug)]
pub struct PendingWithdrawal {
    pub account_id: Vec<u8>,
    pub lockup: Lockup,
}

/// The contract state: the configured pool and collaborator identities, the
/// lockup mapping, and the audit flag.
pub struct LockupContract {
    pool_id: u64,
    service_address: Vec<u8>,
    admin: Vec<u8>,
    lockups: LockupStore,
    audited: bool,
}

/// The mapping that inserting the pairs of `s` in order builds; a later pair
/// with the same key wins.
pub open spec fn entries_map(s: Seq<(Seq<u8>, Lockup)>) -> Map<Seq<u8>, Lockup>
    decreases s.len(),
{
    if s.len() == 0 {
        Map::empty()
    } else {
        entries_map(s.drop_last()).insert(s.last().0, s.last().1)
    }
}

/// The configured identities and pool are the same in both states.
pub open spec fn same_config(a: LockupContract, b: LockupContract) -> bool {
    &&& a.spec_pool_id() == b.spec_pool_id()
    &&& a.spec_service_address() == b.spec_service_address()
    &&& a.spec_admin() == b.spec_admin()
}

/// The state after the audit flag has been set.
pub closed spec fn with_audited(s: LockupContract) -> LockupContract {
    LockupContract { audited: true, ..s }
}

impl LockupContract {
    /// The configured token pool number.
    pub closed spec fn spec_pool_id(self) -> u64 {
        self.pool_id
    }

    /// The identity of the sole trusted transfer service.
    pub closed spec fn spec_service_address(self) -> Seq<u8> {
        self.service_address@
    }

    /// The identity of the administrator who may set the audit flag.
    pub closed spec fn spec_admin(self) -> Seq<u8> {
        self.admin@
    }

    /// Whether withdrawals have been enabled by the administrator.
    pub closed spec fn spec_audited(self) -> bool {
        self.audited
    }

    /// The lockup mapping: account identity to lockup.
    pub closed spec fn lockups_map(self) -> Map<Seq<u8>, Lockup> {
        self.lockups.as_map()
    }

    /// The lockup entries in key order, as pagination returns them.
    pub closed spec fn lockups_seq(self) -> Seq<(Seq<u8>, Lockup)> {
        self.lockups.entries_seq()
    }

    /// Well-formedness: the store is sorted, and every stored lockup has a
    /// representable release time.
    pub closed spec fn wf(self) -> bool {
        &&& self.lockups.wf()
        &&& forall|k: Seq<u8>|
            #[trigger] self.lockups.as_map().contains_key(k)
                ==> self.lockups.as_map()[k].release_fits()
    }

    /// Creates the contract with its configuration; the mapping starts empty
    /// and the audit flag starts unset.
    pub fn new(pool_id: u64, service_address: Vec<u8>, admin: Vec<u8>) -> (r: LockupContract)
        ensures
            r.wf(),
            r.spec_pool_id() == pool_id,
            r.spec_service_address() == service_address@,
            r.spec_admin() == admin@,
            r.lockups_map() == Map::<Seq<u8>, Lockup>::empty(),
            !r.spec_audited(),
    {
        LockupContract {
            pool_id,
            service_address,
            admin,
            lockups: LockupStore::new(),
            audited: false,
        }
    }

    /// Rebuilds contract state from persisted parts, as the host shell hands
    /// them back between calls. Fails exactly when some entry's release time
    /// does not fit in 64-bit nanoseconds; otherwise the mapping holds the
    /// entries, a later duplicate key winning.
    pub fn from_parts(
        pool_id: u64,
        service_address: Vec<u8>,
        admin: Vec<u8>,
        audited: bool,
        entries: &Vec<(Vec<u8>, Lockup)>,
    ) -> (r: Option<LockupContract>)
        ensures
            r matches Some(c) ==> c.wf() && c.spec_pool_id() == pool_id
                && c.spec_service_address() == service_address@ && c.spec_admin() == admin@
                && c.spec_audited() == audited && c.lockups_map() == entries_map(
                pairs_view(entries@),
            ),
            r is None ==> exists|i: int|
                0 <= i < entries@.len() && !(#[trigger] entries@[i]).1.release_fits(),
            (forall|i: int| 0 <= i < entries@.len() ==> (#[trigger] entries@[i]).1.release_fits())
                ==> r is Some,
    {
        let ghost es = pairs_view(entries@);
        let mut store = LockupStore::new();
        let mut i: usize = 0;
        proof {
            assert(store.as_map() =~= entries_map(es.subrange(0, 0)));
        }
        while i < entries.len()
            invariant
                i <= entries@.len(),
                es == pairs_view(entries@),
                store.wf(),
                store.as_map() == entries_map(es.subrange(0, i as int)),
                forall|j: int| 0 <= j < i ==> (#[trigger] entries@[j]).1.release_fits(),
                forall|k: Seq<u8>| #[trigger]
                    store.as_map().contains_key(k) ==> store.as_map()[k].release_fits(),
            decreases entries@.len() - i,
        {
            let e = &entries[i];
            let val = e.1;
            if val.duration_ns > u64::MAX - val.timestamp {
                proof {
                    assert(!entries@[i as int].1.release_fits());
                }
                return None;
            }
            let key = clone_bytes(&e.0);
            let ghost prev_map = store.as_map();
            store.insert(key, val);
            proof {
                assert(es.subrange(0, i + 1).drop_last() =~= es.subrange(0, i as int));
                assert(es.subrange(0, i + 1).last() == es[i as int]);
                assert(store.as_map() == entries_map(es.subrange(0, i + 1)));
                assert forall|k: Seq<u8>| #[trigger]
                    store.as_map().contains_key(k) implies store.as_map()[k].release_fits() by {
                    if k != es[i as int].0 {
                        assert(prev_map.contains_key(k));
                    }
                }
            }
            i = i + 1;
        }
        proof {
            assert(es.subrange(0, entries@.len() as int) =~= es);
        }
        Some(LockupContract { pool_id, service_address, admin, lockups: store, audited })
    }

    /// The configured pool number.
    pub fn config_pool_id(&self) -> (r: u64)
        ensures
            r == self.spec_pool_id(),
    {
        self.pool_id
    }

    /// The configured transfer-service identity.
    pub fn config_service_address(&self) -> (r: Vec<u8>)
        ensures
            r@ == self.spec_service_address(),
    {
        clone_bytes(&self.service_address)
    }

    /// The configured administrator identity.
    pub fn config_admin(&self) -> (r: Vec<u8>)
        ensures
            r@ == self.spec_admin(),
    {
        clone_bytes(&self.admin)
    }

    /// Whether the audit flag is set.
    pub fn is_audited(&self) -> (r: bool)
        ensures
            r == self.spec_audited(),
    {
        self.audited
    }

    /// The canonical name of the configured pool: a colon followed by the
    /// pool number in decimal.
    pub fn pool_token_id(&self) -> (r: Vec<u8>)
        ensures
            r@ == pool_tag(self.spec_pool_id()),
    {
        let mut r: Vec<u8> = Vec::new();
        r.push(58);
        let mut digits = render_u64(self.pool_id);
        proof {
            assert(r@ =~= seq![58u8]);
        }
        r.append(&mut digits);
        r
    }

    /// Registration: pre-allocates an empty lockup for the caller.
    ///
    /// Requires the exact storage fee; fails if a lockup already exists for
    /// the caller; otherwise inserts a lockup with amount and duration zero,
    /// starting now. A failing call leaves the state unchanged.
    pub fn register_lockup(&mut self, caller: &Vec<u8>, attached: u128, now: u64) -> (r: Result<
        (),
        LockupError,
    >)
        requires
            old(self).wf(),
        ensures
            final(self).wf(),
            same_config(*final(self), *old(self)),
            final(self).spec_audited() == old(self).spec_audited(),
            attached != STORAGE_DEPOSIT ==> r == Err::<(), LockupError>(LockupError::WrongAttachedDeposit) && *final(self) == *old(self),
            attached == STORAGE_DEPOSIT && old(self).lockups_map().contains_key(caller@) ==> r == Err::<(), LockupError>(LockupError::AlreadyRegistered) && *final(self) == *old(self),
            attached == STORAGE_DEPOSIT && !old(self).lockups_map().contains_key(caller@) ==> r == Ok::<(), LockupError>(()) && final(self).lockups_map() == old(self).lockups_map().insert(caller@, Lockup { amount: 0, duration_ns: 0, timestamp: now }),
    {
        if attached != STORAGE_DEPOSIT {
            return Err(LockupError::WrongAttachedDeposit);
        }
        match self.lockups.get(caller) {
            Some(_) => Err(LockupError::AlreadyRegistered),
            None => {
                let lockup = Lockup { amount: 0, duration_ns: 0, timestamp: now };
                let key = clone_bytes(caller);
                let ghost old_map = self.lockups.as_map();
                self.lockups.insert(key, lockup);
                proof {
                    assert forall|k: Seq<u8>| #[trigger]
                        self.lockups.as_map().contains_key(k) implies self.lockups.as_map()[
                        k].release_fits() by {
                        if k != caller@ {
                            assert(old_map.contains_key(k));
                        }
                    }
                }
                Ok(())
            }
        }
    }

    /// Funding, called on the transfer service's deposit notification.
    ///
    /// The caller must be the configured service and the token must be the
    /// configured pool; the message must parse as a decimal duration in
    /// nanoseconds. A fresh account gets a new lockup; an existing lockup is
    /// merged under the extend-only policy: the new release time
    /// (now + duration) must not precede the old one, the amounts add up, and
    /// the new duration and start time replace the old. The result `Ok(0)`
    /// signals that the whole deposit was accepted. A failing call leaves the
    /// state unchanged.
    pub fn mft_on_transfer(
        &mut self,
        caller: &Vec<u8>,
        token_id: &Vec<u8>,
        sender_id: Vec<u8>,
        amount: u128,
        msg: &Vec<u8>,
        now: u64,
    ) -> (r: Result<u128, LockupError>)
        requires
            old(self).wf(),
            parse_u64(msg@) matches Some(d) ==> now + d <= u64::MAX,
            parse_u64(msg@) matches Some(d) ==> ((caller@ == old(self).spec_service_address() && token_id@ == pool_tag(old(self).spec_pool_id()) && old(self).lockups_map().contains_key(sender_id@) && old(self).lockups_map()[sender_id@].release_time() <= now + d) ==> old(self).lockups_map()[sender_id@].amount + amount <= u128::MAX),
        ensures
            final(self).wf(),
            same_config(*final(self), *old(self)),
            final(self).spec_audited() == old(self).spec_audited(),
            caller@ != old(self).spec_service_address() ==> r == Err::<u128, LockupError>(LockupError::UntrustedService) && *final(self) == *old(self),
            caller@ == old(self).spec_service_address() && token_id@ != pool_tag(old(self).spec_pool_id()) ==> r == Err::<u128, LockupError>(LockupError::WrongToken) && *final(self) == *old(self),
            caller@ == old(self).spec_service_address() && token_id@ == pool_tag(old(self).spec_pool_id()) && parse_u64(msg@) is None ==> r == Err::<u128, LockupError>(LockupError::MalformedDuration) && *final(self) == *old(self),
            caller@ == old(self).spec_service_address() && token_id@ == pool_tag(old(self).spec_pool_id()) ==> (parse_u64(msg@) matches Some(d) ==> {
                let m = old(self).lockups_map();
                if !m.contains_key(sender_id@) {
                    r == Ok::<u128, LockupError>(0) && final(self).lockups_map() == m.insert(
                        sender_id@,
                        Lockup { amount, duration_ns: d, timestamp: now },
                    )
                } else if m[sender_id@].release_time() <= now + d {
                    r == Ok::<u128, LockupError>(0) && final(self).lockups_map() == m.insert(
                        sender_id@,
                        Lockup {
                            amount: (m[sender_id@].amount + amount) as u128,
                            duration_ns: d,
                            timestamp: now,
                        },
                    )
                } else {
                    r == Err::<u128, LockupError>(LockupError::ShortenedRelease) && *final(self)
                        == *old(self)
                }
            }),
    {
        match lex_cmp(caller, &self.service_address) {
            KeyCmp::Equal => {}
            _ => {
                return Err(LockupError::UntrustedService);
            }
        }
        let tag = self.pool_token_id();
        match lex_cmp(token_id, &tag) {
            KeyCmp::Equal => {}
            _ => {
                return Err(LockupError::WrongToken);
            }
        }
        let duration_ns = match parse_u64_bytes(msg) {
            Some(d) => d,
            None => {
                return Err(LockupError::MalformedDuration);
            }
        };
        let new_release: u64 = now + duration_ns;
        let mut lockup = Lockup { amount, duration_ns, timestamp: now };
        match self.lockups.get(&sender_id) {
            Some(l) => {
                let old_release: u64 = l.timestamp + l.duration_ns;
                if old_release <= new_release {
                    lockup.amount = l.amount + amount;
                } else {
                    return Err(LockupError::ShortenedRelease);
                }
            }
            None => {}
        }
        let ghost old_map = self.lockups.as_map();
        let ghost key = sender_id@;
        self.lockups.insert(sender_id, lockup);
        proof {
            assert forall|k: Seq<u8>| #[trigger]
                self.lockups.as_map().contains_key(k) implies self.lockups.as_map()[
                k].release_fits() by {
                if k != key {
                    assert(old_map.contains_key(k));
                }
            }
        }
        Ok(0)
    }

    /// Withdrawal initiation.
    ///
    /// Requires the marker payment and the audit flag; the caller's lockup
    /// must exist and its release time must have passed. On success the
    /// lockup is removed and the pending record — the transfer request to be
    /// issued and the closure state of the completion handler — is returned.
    /// A failing call leaves the state unchanged.
    pub fn withdraw(&mut self, caller: &Vec<u8>, attached: u128, now: u64) -> (r: Result<
        PendingWithdrawal,
        LockupError,
    >)
        requires
            old(self).wf(),
        ensures
            final(self).wf(),
            same_config(*final(self), *old(self)),
            final(self).spec_audited() == old(self).spec_audited(),
            attached != MARKER_DEPOSIT ==> r == Err::<PendingWithdrawal, LockupError>(LockupError::WrongAttachedDeposit) && *final(self) == *old(self),
            attached == MARKER_DEPOSIT && !old(self).spec_audited() ==> r == Err::<PendingWithdrawal, LockupError>(LockupError::NotAudited) && *final(self) == *old(self),
            attached == MARKER_DEPOSIT && old(self).spec_audited() && !old(self).lockups_map().contains_key(caller@) ==> r == Err::<PendingWithdrawal, LockupError>(LockupError::LockupNotFound) && *final(self) == *old(self),
            attached == MARKER_DEPOSIT && old(self).spec_audited() && old(self).lockups_map().contains_key(caller@) && now < old(self).lockups_map()[caller@].release_time() ==> r == Err::<PendingWithdrawal, LockupError>(LockupError::NotReleased) && *final(self) == *old(self),
            attached == MARKER_DEPOSIT && old(self).spec_audited() && old(self).lockups_map().contains_key(caller@) && now >= old(self).lockups_map()[caller@].release_time() ==> (r matches Ok(p) && p.account_id@ == caller@ && p.lockup == old(self).lockups_map()[caller@] && final(self).lockups_map() == old(self).lockups_map().remove(caller@)),
    {
        if attached != MARKER_DEPOSIT {
            return Err(LockupError::WrongAttachedDeposit);
        }
        if !self.audited {
            return Err(LockupError::NotAudited);
        }
        let lockup = match self.lockups.get(caller) {
            Some(l) => l,
            None => {
                return Err(LockupError::LockupNotFound);
            }
        };
        let release: u64 = lockup.timestamp + lockup.duration_ns;
        if now < release {
            return Err(LockupError::NotReleased);
        }
        let ghost old_map = self.lockups.as_map();
        self.lockups.remove(caller);
        proof {
            assert forall|k: Seq<u8>| #[trigger]
                self.lockups.as_map().contains_key(k) implies self.lockups.as_map()[
                k].release_fits() by {
                assert(old_map.contains_key(k));
            }
        }
        Ok(PendingWithdrawal { account_id: clone_bytes(caller), lockup })
    }

    /// Withdrawal completion, invoked with the settled outcome of the
    /// transfer request that `withdraw` issued. Only the contract's own
    /// runtime identity may invoke it; the host shell enforces that.
    ///
    /// On success the lockup stays absent; on failure the original pair is
    /// reinserted unchanged — a compensating rollback. The rollback
    /// overwrites whatever the account did to its entry in the pending
    /// window; that known race is deliberate and kept.
    pub fn withdraw_callback(&mut self, account_id: &Vec<u8>, lockup: Lockup, transfer_ok: bool)
        requires
            old(self).wf(),
            lockup.release_fits(),
        ensures
            final(self).wf(),
            same_config(*final(self), *old(self)),
            final(self).spec_audited() == old(self).spec_audited(),
            transfer_ok ==> *final(self) == *old(self),
            !transfer_ok ==> final(self).lockups_map() == old(self).lockups_map().insert(
                account_id@,
                lockup,
            ),
    {
        if !transfer_ok {
            let key = clone_bytes(account_id);
            let ghost old_map = self.lockups.as_map();
            self.lockups.insert(key, lockup);
            proof {
                assert forall|k: Seq<u8>| #[trigger]
                    self.lockups.as_map().contains_key(k) implies self.lockups.as_map()[
                    k].release_fits() by {
                    if k != account_id@ {
                        assert(old_map.contains_key(k));
                    }
                }
            }
        }
    }

    /// Point lookup of an account's lockup; no side effects.
    pub fn get_lockup(&self, account_id: &Vec<u8>) -> (r: Option<Lockup>)
        requires
            self.wf(),
        ensures
            r == if self.lockups_map().contains_key(account_id@) {
                Some(self.lockups_map()[account_id@])
            } else {
                None::<Lockup>
            },
    {
        self.lockups.get(account_id)
    }

    /// Pagination: skips `skip` entries of the mapping in key order, then
    /// returns up to `take` entries; read-only and deterministic.
    pub fn get_lockups(&self, skip: u64, take: u64) -> (r: Vec<(Vec<u8>, Lockup)>)
        ensures
            pairs_view(r@) == page_slice(self.lockups_seq(), skip as int, take as int),
    {
        self.lockups.page(skip, take)
    }

    /// The audit gate: requires the marker payment and the administrator as
    /// caller; sets the audit flag. Nothing ever clears it again. A failing
    /// call leaves the state unchanged.
    pub fn set_audited(&mut self, caller: &Vec<u8>, attached: u128) -> (r: Result<(), LockupError>)
        requires
            old(self).wf(),
        ensures
            final(self).wf(),
            same_config(*final(self), *old(self)),
            attached != MARKER_DEPOSIT ==> r == Err::<(), LockupError>(LockupError::WrongAttachedDeposit) && *final(self) == *old(self),
            attached == MARKER_DEPOSIT && caller@ != old(self).spec_admin() ==> r == Err::<(), LockupError>(LockupError::NotAdmin) && *final(self) == *old(self),
            attached == MARKER_DEPOSIT && caller@ == old(self).spec_admin() ==> r == Ok::<(), LockupError>(()) && *final(self) == with_audited(*old(self)) && final(self).spec_audited(),
            final(self).lockups_map() == old(self).lockups_map(),
    {
        if attached != MARKER_DEPOSIT {
            return Err(LockupError::WrongAttachedDeposit);
        }
        match lex_cmp(caller, &self.admin) {
            KeyCmp::Equal => {
                self.audited = true;
                Ok(())
            }
            _ => Err(LockupError::NotAdmin),
        }
    }
}

/// Setting the audit flag is idempotent: a second successful `set_audited`
/// call, which takes the state to `with_audited` again, changes nothing — the
/// flag simply remains set.
pub proof fn lemma_set_audited_idempotent(s: LockupContract)
    ensures
        with_audited(with_audited(s)) == with_audited(s),
        with_audited(s).spec_audited(),
        with_audited(s).lockups_map() == s.lockups_map(),
        same_config(with_audited(s), s),
{
}

/// A successful registration leaves the account present in the mapping, so by
/// `register_lockup`'s contract a second registration for the same account
/// must return `AlreadyRegistered` and leave the mapping unchanged.
pub proof fn lemma_register_twice_fails(m: Map<Seq<u8>, Lockup>, caller: Seq<u8>, now: u64)
    ensures
        m.insert(caller, Lockup { amount: 0, duration_ns: 0, timestamp: now }).contains_key(caller),
{
}

/// The extend-only policy: whenever a merge is allowed — the old release
/// time does not exceed the new one, `now + d` — the merged lockup's release
/// time is at least the old one, whatever the amounts. Funding never pulls a
/// release earlier.
pub proof fn lemma_extend_only(l: Lockup, d: u64, now: u64, amount: u128)
    requires
        l.release_time() <= now + d,
    ensures
        (Lockup { amount, duration_ns: d, timestamp: now }).release_time() >= l.release_time(),
{
}

/// The compensating rollback restores the pre-withdrawal state: removing a
/// present key and reinserting the removed value gives back the original
/// mapping. With `withdraw`'s and `withdraw_callback`'s contracts this says
/// that a withdrawal whose transfer fails leaves the mapping as it was —
/// provided nothing else touched the account in the pending window.
pub proof fn lemma_rollback_restores(m: Map<Seq<u8>, Lockup>, k: Seq<u8>)
    requires
        m.contains_key(k),
    ensures
        m.remove(k).insert(k, m[k]) == m,
{
    assert(m.remove(k).insert(k, m[k]) =~= m);
}

/// Skipping all entries or past them, and taking zero entries, both give the
/// empty page, for every state and every such bound.
pub proof fn lemma_page_empty(s: LockupContract, skip: int, take: int)
    requires
        skip >= 0,
        take >= 0,
        skip >= s.lockups_seq().len() || take == 0,
    ensures
        page_slice(s.lockups_seq(), skip, take).len() == 0,
{
}

/// Pagination is in key order and agrees with the mapping: the entries of
/// `lockups_seq`, which `get_lockups` slices, are strictly sorted by key, and
/// each entry is a pair of the mapping.
pub proof fn lemma_pagination_sound(s: LockupContract)
    requires
        s.wf(),
    ensures
        forall|i: int, j: int|
            0 <= i < j < s.lockups_seq().len() ==> crate::order::lex_lt(
                (#[trigger] s.lockups_seq()[i]).0,
                (#[trigger] s.lockups_seq()[j]).0,
            ),
        forall|i: int|
            0 <= i < s.lockups_seq().len() ==> s.lockups_map().contains_key(
                (#[trigger] s.lockups_seq()[i]).0,
            ) && s.lockups_map()[s.lockups_seq()[i].0] == s.lockups_seq()[i].1,
{
    assert forall|i: int|
        0 <= i < s.lockups_seq().len() implies s.lockups_map().contains_key(
        (#[trigger] s.lockups_seq()[i]).0,
    ) && s.lockups_map()[s.lockups_seq()[i].0] == s.lockups_seq()[i].1 by {
        s.lockups.lemma_entry_value(i);
    }
}

} // verus!
