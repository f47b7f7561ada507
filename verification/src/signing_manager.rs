//! The per-finalized-block driver.  Once the chain state for a finalized
//! block is in hand (session key, own party index, proposal batches,
//! authorities and their jailed partition, threshold), it sorts the batches
//! oldest first, drops those already scheduled, elects a deterministic
//! committee of `t + 1` signers per surviving batch, and plans a signing
//! task for each batch whose committee contains the local party.  The
//! embedding runtime initialises the protocol for each planned task and
//! submits it to the work manager.

use vstd::prelude::*;

use crate::hashing::signing_seed;
use crate::hashing::spec_signing_seed;
use crate::job::SignedMessage;
use crate::proposals::UnsignedProposalBatch;
use crate::proposals::sort_batches_by_timestamp;
use crate::proposals::spec_sort_batches;
use crate::sampling::select_random_set;
use crate::sampling::spec_select_random_set;
use crate::types::JOB_POLL_INTERVAL_IN_MILLISECONDS;
use crate::types::MAX_ENQUEUED_TASKS;
use crate::types::MAX_POTENTIAL_SIGNING_SETS_PER_PROPOSAL;
use crate::types::MAX_RUNNING_TASKS;
use crate::types::SigningError;
use crate::types::TaskHash;
use crate::types::task_hash_eq;
use crate::job::Job;
use crate::work_manager::DeliveryAction;
use crate::work_manager::PollMethod;
use crate::work_manager::WorkManager;
use crate::work_manager::contains_hash;
use crate::work_manager::spec_delivery_transition;

verus! {

/// A participant among the best authorities; indices are 1-based, so zero
/// is invalid.
#[derive(Clone, Copy, Debug, PartialEq, Eq, Structural)]
pub struct KeygenPartyId(pub u16);

impl KeygenPartyId {
    /// Validity conversion from a raw index: zero is rejected.  This is
    /// the non-zero half of the party invariant; the upper bound is
    /// carried by the election contracts, which prove that every selected
    /// id comes from the caller-supplied authority index lists
    /// ([`lemma_committee_size_and_membership`]).
    pub fn try_from(index: u16) -> (r: Result<KeygenPartyId, SigningError>)
        ensures
            r == (if index >= 1 {
                Ok::<KeygenPartyId, SigningError>(KeygenPartyId(index))
            } else {
                Err::<KeygenPartyId, SigningError>(SigningError::InvalidPartyIndex)
            }),
    {
        if index == 0 {
            Err(SigningError::InvalidPartyIndex)
        } else {
            Ok(KeygenPartyId(index))
        }
    }
}

/// One best authority as the chain reports it: its position index and its
/// public key bytes.
#[derive(Debug)]
pub struct AuthorityEntry {
    pub index: u16,
    pub public_key: Vec<u8>,
}

/// A best authority after validity conversion.
#[derive(Debug)]
pub struct BestAuthority {
    pub party: KeygenPartyId,
    pub public_key: Vec<u8>,
}

/// Everything `on_block_finalized` needs of the chain state at one
/// finalized block, fetched up front by the embedding runtime.
#[derive(Debug)]
pub struct FinalizedBlockInputs {
    /// Keygen epoch of the public key in force.
    pub session_id: u64,
    /// The session's distributed public key bytes.
    pub dkg_pub_key: Vec<u8>,
    /// The local party's index among the best authorities, when it is one.
    pub party_index: Option<u16>,
    /// The best authorities, in on-chain order.
    pub best_authorities: Vec<AuthorityEntry>,
    /// Signature threshold `t`; a signing set has `t + 1` members.
    pub signature_threshold: u16,
    /// Indices of the authorities currently not jailed.
    pub unjailed_signers: Vec<u16>,
    /// Indices of the jailed authorities, in list order.
    pub jailed_signers: Vec<u16>,
    /// The pending unsigned proposal batches.
    pub unsigned_proposal_batches: Vec<UnsignedProposalBatch>,
    /// The finalized block's number.
    pub block_number: u64,
}

/// One signing task the driver decided to run: the embedding runtime
/// initialises the protocol for it and submits it to the work manager.
#[derive(Debug)]
pub struct PlannedSigningTask {
    pub unsigned_proposal_hash: TaskHash,
    pub batch: UnsignedProposalBatch,
    pub ssid: u8,
    pub signing_set: Vec<KeygenPartyId>,
    /// Rotation-priority batches bypass the bounds and start at once.
    pub force_start: bool,
}

/// The outcome of one finalized block: the common session parameters and
/// the tasks to set up, in submission order.
#[derive(Debug)]
pub struct SigningPlan {
    pub session_id: u64,
    pub threshold: u16,
    pub party_i: KeygenPartyId,
    pub best_authorities: Vec<BestAuthority>,
    pub associated_block_id: u64,
    pub tasks: Vec<PlannedSigningTask>,
}

/// The batch's content hash, as a byte sequence.
pub open spec fn spec_batch_hash(b: UnsignedProposalBatch) -> Seq<u8> {
    match b.hash {
        Some(h) => h@,
        None => Seq::empty(),
    }
}

/// The pool the sampler draws from: the unjailed authorities, topped up
/// with the first jailed ones in list order when fewer than `t + 1` remain
/// unjailed.
pub open spec fn spec_signing_pool(t: u16, unjailed: Seq<u16>, jailed: Seq<u16>) -> Seq<u16> {
    if unjailed.len() <= t as int {
        let diff = t as int + 1 - unjailed.len();
        if diff <= jailed.len() {
            unjailed + jailed.take(diff)
        } else {
            unjailed + jailed
        }
    } else {
        unjailed
    }
}

/// The selected indices that pass validity conversion, in selection order.
pub open spec fn spec_valid_parties(sel: Seq<u16>) -> Seq<KeygenPartyId>
    decreases sel.len(),
{
    if sel.len() == 0 {
        Seq::empty()
    } else {
        let rest = spec_valid_parties(sel.drop_first());
        if sel[0] >= 1 {
            seq![KeygenPartyId(sel[0])] + rest
        } else {
            rest
        }
    }
}

/// What `generate_signers` returns: the deterministic sample of `t + 1`
/// parties out of the topped-up pool, every member converted to a valid
/// party id; an error when the pool is too small or the conversion drops
/// the set below `t + 1`.
pub open spec fn spec_generate_signers(
    seed: Seq<u8>,
    t: u16,
    unjailed: Seq<u16>,
    jailed: Seq<u16>,
) -> Result<Seq<KeygenPartyId>, SigningError> {
    let pool = spec_signing_pool(t, unjailed, jailed);
    match spec_select_random_set(seed, pool, (t + 1) as u16) {
        Err(e) => Err(e),
        Ok(sel) => {
            let valid = spec_valid_parties(sel);
            if valid.len() < t as int + 1 {
                Err(SigningError::CommitteeSelectionFailed)
            } else {
                Ok(valid)
            }
        },
    }
}

/// The valid parties of a selection come from it, are all non-zero, and
/// are no more numerous than it.
pub proof fn lemma_valid_parties_props(sel: Seq<u16>)
    ensures
        spec_valid_parties(sel).len() <= sel.len(),
        forall|x: int|
            0 <= x < spec_valid_parties(sel).len() ==> (#[trigger] spec_valid_parties(sel)[x]).0
                >= 1 && sel.contains(spec_valid_parties(sel)[x].0),
    decreases sel.len(),
{
    if sel.len() > 0 {
        let rest = sel.drop_first();
        lemma_valid_parties_props(rest);
        let v = spec_valid_parties(sel);
        let vr = spec_valid_parties(rest);
        assert forall|x: int| 0 <= x < v.len() implies (#[trigger] v[x]).0 >= 1 && sel.contains(
            v[x].0,
        ) by {
            if sel[0] >= 1 && x == 0 {
                assert(v[0].0 == sel[0]);
                assert(sel.contains(sel[0]));
            } else {
                let y = if sel[0] >= 1 {
                    x - 1
                } else {
                    x
                };
                assert(v[x] == vr[y]);
                let b = choose|b: int| 0 <= b < rest.len() && rest[b] == vr[y].0;
                assert(sel[b + 1] == vr[y].0);
            }
        }
    }
}

/// Committee law: a successful election returns exactly `t + 1` parties,
/// each a valid (non-zero) member of the topped-up pool.
pub proof fn lemma_committee_size_and_membership(
    seed: Seq<u8>,
    t: u16,
    unjailed: Seq<u16>,
    jailed: Seq<u16>,
)
    requires
        t < 65535,
    ensures
        match spec_generate_signers(seed, t, unjailed, jailed) {
            Ok(c) => c.len() == t as int + 1 && forall|x: int|
                0 <= x < c.len() ==> (#[trigger] c[x]).0 >= 1 && spec_signing_pool(
                    t,
                    unjailed,
                    jailed,
                ).contains(c[x].0),
            Err(_) => true,
        },
{
    let pool = spec_signing_pool(t, unjailed, jailed);
    let amount = (t + 1) as u16;
    if pool.len() >= amount as int {
        let shuffled = crate::sampling::spec_shuffle(
            pool,
            crate::sampling::spec_seed_word(seed),
            0,
            amount as int,
        );
        crate::sampling::lemma_shuffle_preserves(
            pool,
            crate::sampling::spec_seed_word(seed),
            0,
            amount as int,
        );
        let sel = shuffled.take(amount as int);
        lemma_valid_parties_props(sel);
        match spec_generate_signers(seed, t, unjailed, jailed) {
            Ok(c) => {
                assert(c == spec_valid_parties(sel));
                assert(c.len() <= sel.len());
                assert forall|x: int| 0 <= x < c.len() implies (#[trigger] c[x]).0 >= 1
                    && pool.contains(c[x].0) by {
                    assert(sel.contains(c[x].0));
                    let b = choose|b: int| 0 <= b < sel.len() && sel[b] == c[x].0;
                    assert(sel[b] == shuffled[b]);
                    assert(pool.contains(shuffled[b]));
                }
            },
            Err(_) => {},
        }
    }
}

/// The first candidate signing-set index at or after `ssid` whose election
/// succeeds and contains `me`, with its committee.
pub open spec fn spec_first_elected(
    dkg_pub_key: Seq<u8>,
    encoded_batch: Seq<u8>,
    t: u16,
    unjailed: Seq<u16>,
    jailed: Seq<u16>,
    me: KeygenPartyId,
    ssid: u8,
) -> Option<(u8, Seq<KeygenPartyId>)>
    decreases MAX_POTENTIAL_SIGNING_SETS_PER_PROPOSAL - ssid,
{
    if ssid >= MAX_POTENTIAL_SIGNING_SETS_PER_PROPOSAL {
        None
    } else {
        let seed = spec_signing_seed(dkg_pub_key, encoded_batch, ssid);
        let next = spec_first_elected(
            dkg_pub_key,
            encoded_batch,
            t,
            unjailed,
            jailed,
            me,
            (ssid + 1) as u8,
        );
        match spec_generate_signers(seed, t, unjailed, jailed) {
            Ok(set) => if set.contains(me) {
                Some((ssid, set))
            } else {
                next
            },
            Err(_) => next,
        }
    }
}

/// Whether the `i`-th sorted batch reaches the election at all: it has a
/// hash, no earlier batch shares that hash, and no running or queued task
/// carries it.
pub open spec fn spec_batch_eligible(
    s: Seq<UnsignedProposalBatch>,
    i: int,
    active: Seq<Job>,
    enqueued: Seq<Job>,
) -> bool {
    &&& s[i].hash is Some
    &&& !contains_hash(active, spec_batch_hash(s[i]))
    &&& !contains_hash(enqueued, spec_batch_hash(s[i]))
    &&& forall|k: int| 0 <= k < i ==> spec_batch_hash(#[trigger] s[k]) != spec_batch_hash(s[i])
}

/// The eligible batches among `s[i..]`, in order.
pub open spec fn spec_eligible_from(
    s: Seq<UnsignedProposalBatch>,
    i: int,
    active: Seq<Job>,
    enqueued: Seq<Job>,
) -> Seq<UnsignedProposalBatch>
    decreases s.len() - i,
{
    if i < 0 || i >= s.len() {
        Seq::empty()
    } else {
        let rest = spec_eligible_from(s, i + 1, active, enqueued);
        if spec_batch_eligible(s, i, active, enqueued) {
            seq![s[i]] + rest
        } else {
            rest
        }
    }
}

/// The planned tasks for the eligible batches `elig[i..]`, given that `enq`
/// tasks are already queued against a bound of `max_enq`: batches are taken
/// in order until the queue is full; a batch whose first electing committee
/// contains the local party yields one entry `(batch index, ssid,
/// committee, force)`, and only non-forced entries occupy queue room.
pub open spec fn spec_plan_entries(
    elig: Seq<UnsignedProposalBatch>,
    i: int,
    dkg_pub_key: Seq<u8>,
    t: u16,
    unjailed: Seq<u16>,
    jailed: Seq<u16>,
    me: KeygenPartyId,
    enq: int,
    max_enq: int,
) -> Seq<(int, u8, Seq<KeygenPartyId>, bool)>
    decreases elig.len() - i,
{
    if i < 0 || i >= elig.len() || enq >= max_enq {
        Seq::empty()
    } else {
        match spec_first_elected(dkg_pub_key, elig[i].encoded@, t, unjailed, jailed, me, 0) {
            None => spec_plan_entries(elig, i + 1, dkg_pub_key, t, unjailed, jailed, me, enq, max_enq),
            Some(found) => {
                let force = elig[i].typed_chain_id is None;
                seq![(i, found.0, found.1, force)] + spec_plan_entries(
                    elig,
                    i + 1,
                    dkg_pub_key,
                    t,
                    unjailed,
                    jailed,
                    me,
                    if force {
                        enq
                    } else {
                        enq + 1
                    },
                    max_enq,
                )
            },
        }
    }
}

/// The best authorities that pass validity conversion, in on-chain order.
pub open spec fn spec_valid_authorities(s: Seq<AuthorityEntry>) -> Seq<(KeygenPartyId, Seq<u8>)>
    decreases s.len(),
{
    if s.len() == 0 {
        Seq::empty()
    } else {
        let rest = spec_valid_authorities(s.drop_first());
        if s[0].index >= 1 {
            seq![(KeygenPartyId(s[0].index), s[0].public_key@)] + rest
        } else {
            rest
        }
    }
}

/// The tuple view of converted authorities, for relating the built vector
/// to `spec_valid_authorities`.
pub open spec fn authority_models(s: Seq<BestAuthority>) -> Seq<(KeygenPartyId, Seq<u8>)> {
    Seq::new(s.len(), |x: int| (s[x].party, s[x].public_key@))
}

/// Whether a planned task realises one plan entry against the eligible
/// batches `elig`.
pub open spec fn task_matches_entry(
    task: PlannedSigningTask,
    e: (int, u8, Seq<KeygenPartyId>, bool),
    elig: Seq<UnsignedProposalBatch>,
) -> bool {
    &&& 0 <= e.0 < elig.len()
    &&& task.batch == elig[e.0]
    &&& task.unsigned_proposal_hash@ == spec_batch_hash(elig[e.0])
    &&& task.ssid == e.1
    &&& task.signing_set@ == e.2
    &&& task.force_start == e.3
}

/// Every eligible batch carries a hash.
pub proof fn lemma_eligible_hashes(
    s: Seq<UnsignedProposalBatch>,
    i: int,
    active: Seq<Job>,
    enqueued: Seq<Job>,
)
    ensures
        forall|x: int|
            0 <= x < spec_eligible_from(s, i, active, enqueued).len() ==> (
            #[trigger] spec_eligible_from(s, i, active, enqueued)[x]).hash is Some,
    decreases s.len() - i,
{
    if !(i < 0 || i >= s.len()) {
        lemma_eligible_hashes(s, i + 1, active, enqueued);
        let r = spec_eligible_from(s, i, active, enqueued);
        let rest = spec_eligible_from(s, i + 1, active, enqueued);
        assert forall|x: int| 0 <= x < r.len() implies (#[trigger] r[x]).hash is Some by {
            if spec_batch_eligible(s, i, active, enqueued) {
                if x > 0 {
                    assert(r[x] == rest[x - 1]);
                }
            } else {
                assert(r[x] == rest[x]);
            }
        }
    }
}

/// The per-finalized-block driver: a work manager and the keygen lock that
/// gates it.
pub struct SigningManager {
    /// Governs the signing workload.
    pub work_manager: WorkManager,
    /// The keygen lock; set while a keygen runs.
    pub lock: bool,
}

impl SigningManager {
    /// Whether the keygen lock is set.
    pub open spec fn is_locked(self) -> bool {
        self.lock
    }

    /// The driver is well-formed when its work manager is.
    pub open spec fn wf(self) -> bool {
        self.work_manager.wf()
    }

    /// A fresh driver over an interval-polled work manager with the default
    /// bounds, unlocked.
    pub fn new() -> (r: SigningManager)
        ensures
            r.wf(),
            !r.is_locked(),
            r.work_manager.inner.active_tasks@ == Seq::<Job>::empty(),
            r.work_manager.inner.enqueued_tasks@ == Seq::<Job>::empty(),
            r.work_manager.max_tasks == MAX_RUNNING_TASKS,
            r.work_manager.max_enqueued_tasks == MAX_ENQUEUED_TASKS,
            r.work_manager.poll_method == (PollMethod::Interval {
                millis: JOB_POLL_INTERVAL_IN_MILLISECONDS,
            }),
    {
        SigningManager {
            work_manager: WorkManager::new(
                MAX_RUNNING_TASKS,
                MAX_ENQUEUED_TASKS,
                PollMethod::Interval { millis: JOB_POLL_INTERVAL_IN_MILLISECONDS },
            ),
            lock: false,
        }
    }

    /// Prevents `on_block_finalized` from planning tasks while a keygen
    /// runs.
    pub fn keygen_lock(&mut self)
        ensures
            final(self).is_locked(),
            final(self).work_manager == old(self).work_manager,
    {
        self.lock = true;
    }

    /// Allows `on_block_finalized` to plan tasks again.
    pub fn keygen_unlock(&mut self)
        ensures
            !final(self).is_locked(),
            final(self).work_manager == old(self).work_manager,
    {
        self.lock = false;
    }

    /// Forwards a signed message to the work manager under its payload's
    /// proposal hash; a payload without one fails the message.
    pub fn deliver_message(&mut self, message: SignedMessage) -> (r: Result<
        DeliveryAction,
        SigningError,
    >)
        requires
            old(self).wf(),
        ensures
            final(self).wf(),
            final(self).is_locked() == old(self).is_locked(),
            old(self).work_manager.same_config(final(self).work_manager),
            match message.unsigned_proposal_hash {
                Some(h) => r matches Ok(action) && spec_delivery_transition(
                    old(self).work_manager,
                    final(self).work_manager,
                    message,
                    h,
                    action,
                ),
                None => r == Err::<DeliveryAction, SigningError>(SigningError::MessageDeliveryFailed)
                    && *final(self) == *old(self),
            },
    {
        let message_task_hash = match message.unsigned_proposal_hash {
            Some(h) => h,
            None => {
                return Err(SigningError::MessageDeliveryFailed);
            },
        };
        Ok(self.work_manager.deliver_message(message, message_task_hash))
    }

    /// Elects the deterministic committee of `t + 1` signers for one seed:
    /// tops the unjailed set up from the jailed list when it is short,
    /// samples `t + 1` entries by the seed alone, and converts each to a
    /// valid party id.  The result is a function of the arguments alone, so
    /// honest nodes with the same inputs elect the same committee.
    pub fn generate_signers(
        &self,
        seed: &[u8; 32],
        t: u16,
        unjailed: &Vec<u16>,
        jailed: &Vec<u16>,
    ) -> (r: Result<Vec<KeygenPartyId>, SigningError>)
        requires
            t < 65535,
        ensures
            ({
                let s = spec_generate_signers(seed@, t, unjailed@, jailed@);
                match r {
                    Ok(v) => s matches Ok(sv) && v@ == sv,
                    Err(e) => s == Err::<Seq<KeygenPartyId>, SigningError>(e),
                }
            }),
    {
        let mut pool: Vec<u16> = Vec::new();
        let mut i: usize = 0;
        while i < unjailed.len()
            invariant
                0 <= i <= unjailed@.len(),
                pool@ == unjailed@.take(i as int),
            decreases unjailed@.len() - i,
        {
            pool.push(unjailed[i]);
            proof {
                assert(pool@ =~= unjailed@.take(i as int + 1));
            }
            i += 1;
        }
        proof {
            assert(pool@ =~= unjailed@);
        }
        if pool.len() <= t as usize {
            let diff = t as usize + 1 - pool.len();
            let upto = if diff <= jailed.len() {
                diff
            } else {
                jailed.len()
            };
            let mut j: usize = 0;
            while j < upto
                invariant
                    0 <= j <= upto <= jailed@.len(),
                    pool@ == unjailed@ + jailed@.take(j as int),
                decreases upto - j,
            {
                pool.push(jailed[j]);
                proof {
                    assert(pool@ =~= unjailed@ + jailed@.take(j as int + 1));
                }
                j += 1;
            }
            proof {
                assert(pool@ =~= spec_signing_pool(t, unjailed@, jailed@));
            }
        } else {
            proof {
                assert(pool@ =~= spec_signing_pool(t, unjailed@, jailed@));
            }
        }
        let selected = match select_random_set(seed, pool, t + 1) {
            Ok(s) => s,
            Err(e) => {
                return Err(e);
            },
        };
        let ghost sel0 = selected@;
        let mut valid: Vec<KeygenPartyId> = Vec::new();
        let mut rest = selected;
        proof {
            assert(valid@ + spec_valid_parties(rest@) =~= spec_valid_parties(sel0));
        }
        while rest.len() > 0
            invariant
                valid@ + spec_valid_parties(rest@) == spec_valid_parties(sel0),
            decreases rest.len(),
        {
            let ghost rest0 = rest@;
            let ghost vprev = valid@;
            let x = rest.remove(0);
            proof {
                assert(rest@ =~= rest0.drop_first());
            }
            match KeygenPartyId::try_from(x) {
                Ok(p) => {
                    valid.push(p);
                    proof {
                        assert(spec_valid_parties(rest0) == seq![KeygenPartyId(x)]
                            + spec_valid_parties(rest@));
                        assert(valid@ + spec_valid_parties(rest@) =~= vprev + spec_valid_parties(
                            rest0,
                        ));
                    }
                },
                Err(_) => {
                    proof {
                        assert(spec_valid_parties(rest0) == spec_valid_parties(rest@));
                    }
                },
            }
        }
        proof {
            assert(spec_valid_parties(rest@) == Seq::<KeygenPartyId>::empty());
            assert(valid@ =~= valid@ + spec_valid_parties(rest@));
        }
        if valid.len() < t as usize + 1 {
            return Err(SigningError::CommitteeSelectionFailed);
        }
        Ok(valid)
    }

    /// The first candidate signing-set index at or after `ssid` whose
    /// committee election succeeds and contains `me`.
    fn first_elected(
        &self,
        dkg_pub_key: &Vec<u8>,
        encoded: &Vec<u8>,
        t: u16,
        unjailed: &Vec<u16>,
        jailed: &Vec<u16>,
        me: KeygenPartyId,
        ssid: u8,
    ) -> (r: Option<(u8, Vec<KeygenPartyId>)>)
        requires
            t < 65535,
        ensures
            ({
                let s = spec_first_elected(
                    dkg_pub_key@,
                    encoded@,
                    t,
                    unjailed@,
                    jailed@,
                    me,
                    ssid,
                );
                match r {
                    None => s is None,
                    Some(c) => s == Some((c.0, c.1@)),
                }
            }),
        decreases MAX_POTENTIAL_SIGNING_SETS_PER_PROPOSAL - ssid,
    {
        if ssid >= MAX_POTENTIAL_SIGNING_SETS_PER_PROPOSAL {
            return None;
        }
        let seed = signing_seed(dkg_pub_key, encoded, ssid);
        match self.generate_signers(&seed, t, unjailed, jailed) {
            Ok(set) => {
                if contains_party(&set, me) {
                    Some((ssid, set))
                } else {
                    self.first_elected(dkg_pub_key, encoded, t, unjailed, jailed, me, ssid + 1)
                }
            },
            Err(_) => self.first_elected(dkg_pub_key, encoded, t, unjailed, jailed, me, ssid + 1),
        }
    }

    /// Plans the signing work of one finalized block.  Under the keygen
    /// lock, or when the local node is not among the best authorities,
    /// nothing is planned and the call succeeds without action.  Otherwise
    /// the batches are sorted oldest first; batches without a hash, already
    /// running or queued, or repeating an earlier hash are dropped; and
    /// each remaining batch, for as long as the queue has room, yields a
    /// task when the first electing committee contains the local party.  A
    /// batch without a typed chain identifier is marked for force-start.
    #[verifier::rlimit(100)]
    pub fn on_block_finalized(&self, inputs: FinalizedBlockInputs) -> (r: Result<
        Option<SigningPlan>,
        SigningError,
    >)
        requires
            inputs.signature_threshold < 65535,
        ensures
            self.is_locked() ==> r == Ok::<Option<SigningPlan>, SigningError>(None),
            !self.is_locked() ==> match inputs.party_index {
                None => r == Ok::<Option<SigningPlan>, SigningError>(None),
                Some(pi) => if pi == 0 {
                    r == Err::<Option<SigningPlan>, SigningError>(SigningError::InvalidPartyIndex)
                } else {
                    let me = KeygenPartyId(pi);
                    let a0 = self.work_manager.inner.active_tasks@;
                    let e0 = self.work_manager.inner.enqueued_tasks@;
                    let sorted = spec_sort_batches(inputs.unsigned_proposal_batches@);
                    let elig = spec_eligible_from(sorted, 0, a0, e0);
                    let entries = spec_plan_entries(
                        elig,
                        0,
                        inputs.dkg_pub_key@,
                        inputs.signature_threshold,
                        inputs.unjailed_signers@,
                        inputs.jailed_signers@,
                        me,
                        e0.len() as int,
                        self.work_manager.max_enqueued_tasks as int,
                    );
                    let auths = spec_valid_authorities(inputs.best_authorities@);
                    r matches Ok(op) && op matches Some(plan) && {
                        &&& plan.session_id == inputs.session_id
                        &&& plan.threshold == inputs.signature_threshold
                        &&& plan.party_i == me
                        &&& plan.associated_block_id == inputs.block_number
                        &&& authority_models(plan.best_authorities@) == auths
                        &&& plan.tasks@.len() == entries.len()
                        &&& forall|x: int|
                            0 <= x < entries.len() ==> task_matches_entry(
                                #[trigger] plan.tasks@[x],
                                entries[x],
                                elig,
                            )
                    }
                },
            },
    {
        if self.lock {
            return Ok(None);
        }
        let pi = match inputs.party_index {
            Some(p) => p,
            None => {
                return Ok(None);
            },
        };
        let party_i = match KeygenPartyId::try_from(pi) {
            Ok(p) => p,
            Err(e) => {
                return Err(e);
            },
        };
        let FinalizedBlockInputs {
            session_id,
            dkg_pub_key,
            party_index: _,
            best_authorities,
            signature_threshold: t,
            unjailed_signers,
            jailed_signers,
            unsigned_proposal_batches,
            block_number,
        } = inputs;

        // Validity conversion of the best authorities, dropping index zero.
        let ghost auth0 = best_authorities@;
        let mut best: Vec<BestAuthority> = Vec::new();
        let mut rest_auth = best_authorities;
        proof {
            assert(authority_models(best@) + spec_valid_authorities(rest_auth@)
                =~= spec_valid_authorities(auth0));
        }
        while rest_auth.len() > 0
            invariant
                authority_models(best@) + spec_valid_authorities(rest_auth@)
                    == spec_valid_authorities(auth0),
            decreases rest_auth.len(),
        {
            let ghost ra0 = rest_auth@;
            let ghost b_prev = best@;
            let a = rest_auth.remove(0);
            proof {
                assert(rest_auth@ =~= ra0.drop_first());
            }
            if a.index >= 1 {
                best.push(BestAuthority { party: KeygenPartyId(a.index), public_key: a.public_key });
                proof {
                    assert(spec_valid_authorities(ra0) == seq![
                        (KeygenPartyId(ra0[0].index), ra0[0].public_key@),
                    ] + spec_valid_authorities(rest_auth@));
                    assert(authority_models(best@) =~= authority_models(b_prev).push(
                        (KeygenPartyId(ra0[0].index), ra0[0].public_key@),
                    ));
                    assert(authority_models(best@) + spec_valid_authorities(rest_auth@)
                        =~= authority_models(b_prev) + spec_valid_authorities(ra0));
                }
            } else {
                proof {
                    assert(spec_valid_authorities(ra0) == spec_valid_authorities(rest_auth@));
                }
            }
        }
        proof {
            assert(spec_valid_authorities(rest_auth@) == Seq::<(KeygenPartyId, Seq<u8>)>::empty());
            assert(authority_models(best@) =~= authority_models(best@) + spec_valid_authorities(
                rest_auth@,
            ));
        }

        // Sort oldest first, then keep the eligible batches in order.
        let sorted = sort_batches_by_timestamp(unsigned_proposal_batches);
        let ghost sorted0 = sorted@;
        let ghost a0 = self.work_manager.inner.active_tasks@;
        let ghost e0 = self.work_manager.inner.enqueued_tasks@;
        let mut eligible: Vec<UnsignedProposalBatch> = Vec::new();
        let mut seen: Vec<TaskHash> = Vec::new();
        let mut rest_b = sorted;
        let ghost mut i: int = 0;
        proof {
            assert(eligible@ + spec_eligible_from(sorted0, 0, a0, e0) =~= spec_eligible_from(
                sorted0,
                0,
                a0,
                e0,
            ));
        }
        while rest_b.len() > 0
            invariant
                0 <= i <= sorted0.len(),
                rest_b@ == sorted0.skip(i),
                eligible@ + spec_eligible_from(sorted0, i, a0, e0) == spec_eligible_from(
                    sorted0,
                    0,
                    a0,
                    e0,
                ),
                a0 == self.work_manager.inner.active_tasks@,
                e0 == self.work_manager.inner.enqueued_tasks@,
                forall|k: int|
                    0 <= k < i && (#[trigger] sorted0[k]).hash is Some ==> exists|m: int|
                        0 <= m < seen@.len() && seen@[m]@ == spec_batch_hash(sorted0[k]),
                forall|m: int|
                    0 <= m < seen@.len() ==> exists|k: int|
                        0 <= k < i && (#[trigger] seen@[m])@ == spec_batch_hash(sorted0[k]),
            decreases rest_b.len(),
        {
            let ghost rb0 = rest_b@;
            let ghost el_prev = eligible@;
            let b = rest_b.remove(0);
            proof {
                assert(b == sorted0[i]);
                assert(rest_b@ =~= sorted0.skip(i + 1));
            }
            match b.hash {
                Some(h) => {
                    let mut dup = false;
                    let mut m: usize = 0;
                    while m < seen.len()
                        invariant
                            0 <= m <= seen@.len(),
                            dup == exists|x: int| 0 <= x < m && (#[trigger] seen@[x])@ == h@,
                        decreases seen@.len() - m,
                    {
                        if task_hash_eq(&seen[m], &h) {
                            proof {
                                assert(seen@[m as int]@ == h@);
                            }
                            dup = true;
                        }
                        m += 1;
                    }
                    let in_wm = self.work_manager.job_exists(&h);
                    proof {
                        assert(spec_batch_hash(sorted0[i]) == h@);
                    }
                    if !dup && !in_wm {
                        proof {
                            assert forall|k: int|
                                0 <= k < i implies spec_batch_hash(#[trigger] sorted0[k])
                                != spec_batch_hash(sorted0[i]) by {
                                if sorted0[k].hash is Some {
                                    if spec_batch_hash(sorted0[k]) == h@ {
                                        let m2 = choose|m2: int|
                                            0 <= m2 < seen@.len() && seen@[m2]@ == spec_batch_hash(
                                                sorted0[k],
                                            );
                                        assert(false);
                                    }
                                } else {
                                    assert(spec_batch_hash(sorted0[k]) == Seq::<u8>::empty());
                                    assert(h@.len() == 32);
                                }
                            }
                            assert(spec_batch_eligible(sorted0, i, a0, e0));
                            assert(spec_eligible_from(sorted0, i, a0, e0) == seq![sorted0[i]]
                                + spec_eligible_from(sorted0, i + 1, a0, e0));
                        }
                        eligible.push(b);
                        proof {
                            assert(eligible@ + spec_eligible_from(sorted0, i + 1, a0, e0)
                                =~= el_prev + spec_eligible_from(sorted0, i, a0, e0));
                        }
                    } else {
                        proof {
                            assert(!spec_batch_eligible(sorted0, i, a0, e0)) by {
                                if dup {
                                    let x = choose|x: int|
                                        0 <= x < seen@.len() && (#[trigger] seen@[x])@ == h@;
                                    let k = choose|k: int|
                                        0 <= k < i && seen@[x]@ == spec_batch_hash(sorted0[k]);
                                    assert(spec_batch_hash(sorted0[k]) == spec_batch_hash(
                                        sorted0[i],
                                    ));
                                }
                            }
                            assert(spec_eligible_from(sorted0, i, a0, e0) == spec_eligible_from(
                                sorted0,
                                i + 1,
                                a0,
                                e0,
                            ));
                        }
                    }
                    let ghost seen_prev = seen@;
                    seen.push(h);
                    proof {
                        assert forall|k: int|
                            0 <= k < i + 1 && (#[trigger] sorted0[k]).hash is Some implies exists|m2: int|
                            0 <= m2 < seen@.len() && seen@[m2]@ == spec_batch_hash(sorted0[k]) by {
                            if k < i {
                                let m2 = choose|m2: int|
                                    0 <= m2 < seen_prev.len() && seen_prev[m2]@ == spec_batch_hash(
                                        sorted0[k],
                                    );
                                assert(seen@[m2]@ == spec_batch_hash(sorted0[k]));
                            } else {
                                assert(seen@[seen@.len() - 1]@ == spec_batch_hash(sorted0[k]));
                            }
                        }
                        assert forall|m2: int| 0 <= m2 < seen@.len() implies exists|k: int|
                            0 <= k < i + 1 && (#[trigger] seen@[m2])@ == spec_batch_hash(
                                sorted0[k],
                            ) by {
                            if m2 < seen_prev.len() {
                                let k = choose|k: int|
                                    0 <= k < i && seen_prev[m2]@ == spec_batch_hash(sorted0[k]);
                                assert(seen@[m2]@ == spec_batch_hash(sorted0[k]));
                            } else {
                                assert(seen@[m2]@ == spec_batch_hash(sorted0[i]));
                            }
                        }
                    }
                },
                None => {
                    proof {
                        assert(!spec_batch_eligible(sorted0, i, a0, e0));
                        assert(spec_eligible_from(sorted0, i, a0, e0) == spec_eligible_from(
                            sorted0,
                            i + 1,
                            a0,
                            e0,
                        ));
                        assert forall|k: int|
                            0 <= k < i + 1 && (#[trigger] sorted0[k]).hash is Some implies exists|m2: int|
                            0 <= m2 < seen@.len() && seen@[m2]@ == spec_batch_hash(sorted0[k]) by {
                            if k < i {
                            }
                        }
                    }
                },
            }
            proof {
                i = i + 1;
            }
        }
        proof {
            assert(i == sorted0.len());
            assert(spec_eligible_from(sorted0, i, a0, e0) == Seq::<UnsignedProposalBatch>::empty());
            assert(eligible@ =~= eligible@ + spec_eligible_from(sorted0, i, a0, e0));
            lemma_eligible_hashes(sorted0, 0, a0, e0);
        }
        let ghost elig0 = spec_eligible_from(sorted0, 0, a0, e0);

        // Plan: oldest first, while the queue has room.
        let ghost entries = spec_plan_entries(
            elig0,
            0,
            dkg_pub_key@,
            t,
            unjailed_signers@,
            jailed_signers@,
            party_i,
            e0.len() as int,
            self.work_manager.max_enqueued_tasks as int,
        );
        let mut tasks: Vec<PlannedSigningTask> = Vec::new();
        let mut enq_count: usize = self.work_manager.inner.enqueued_tasks.len();
        let mut rest_e = eligible;
        let ghost mut j: int = 0;
        proof {
            assert(entries.skip(0) =~= entries);
        }
        while rest_e.len() > 0 && enq_count < self.work_manager.max_enqueued_tasks
            invariant
                0 <= j <= elig0.len(),
                rest_e@ == elig0.skip(j),
                forall|x: int|
                    0 <= x < elig0.len() ==> (#[trigger] elig0[x]).hash is Some,
                t < 65535,
                tasks@.len() <= entries.len(),
                spec_plan_entries(
                    elig0,
                    j,
                    dkg_pub_key@,
                    t,
                    unjailed_signers@,
                    jailed_signers@,
                    party_i,
                    enq_count as int,
                    self.work_manager.max_enqueued_tasks as int,
                ) == entries.skip(tasks@.len() as int),
                forall|x: int|
                    0 <= x < tasks@.len() ==> task_matches_entry(
                        #[trigger] tasks@[x],
                        entries[x],
                        elig0,
                    ),
            decreases rest_e.len(),
        {
            let ghost re0 = rest_e@;
            let ghost n = tasks@.len() as int;
            let b = rest_e.remove(0);
            proof {
                assert(b == elig0[j]);
                assert(rest_e@ =~= elig0.skip(j + 1));
            }
            let found = self.first_elected(
                &dkg_pub_key,
                &b.encoded,
                t,
                &unjailed_signers,
                &jailed_signers,
                party_i,
                0,
            );
            match found {
                Some(c) => {
                    let force = b.typed_chain_id.is_none();
                    let h = match b.hash {
                        Some(h) => h,
                        None => {
                            proof {
                                assert(false);
                            }
                            vstd::pervasive::unreached()
                        },
                    };
                    let (ssid, signing_set) = c;
                    proof {
                        assert(spec_plan_entries(
                            elig0,
                            j,
                            dkg_pub_key@,
                            t,
                            unjailed_signers@,
                            jailed_signers@,
                            party_i,
                            enq_count as int,
                            self.work_manager.max_enqueued_tasks as int,
                        ) == seq![(j, ssid, signing_set@, force)] + spec_plan_entries(
                            elig0,
                            j + 1,
                            dkg_pub_key@,
                            t,
                            unjailed_signers@,
                            jailed_signers@,
                            party_i,
                            if force {
                                enq_count as int
                            } else {
                                enq_count as int + 1
                            },
                            self.work_manager.max_enqueued_tasks as int,
                        ));
                        assert(entries.skip(n)[0] == entries[n]);
                        assert(entries[n] == (j, ssid, signing_set@, force));
                        assert(entries.skip(n).drop_first() =~= entries.skip(n + 1));
                    }
                    tasks.push(
                        PlannedSigningTask {
                            unsigned_proposal_hash: h,
                            batch: b,
                            ssid,
                            signing_set,
                            force_start: force,
                        },
                    );
                    proof {
                        assert(task_matches_entry(tasks@[n], entries[n], elig0));
                    }
                    if !force {
                        enq_count += 1;
                    }
                },
                None => {
                    proof {
                        assert(spec_plan_entries(
                            elig0,
                            j,
                            dkg_pub_key@,
                            t,
                            unjailed_signers@,
                            jailed_signers@,
                            party_i,
                            enq_count as int,
                            self.work_manager.max_enqueued_tasks as int,
                        ) == spec_plan_entries(
                            elig0,
                            j + 1,
                            dkg_pub_key@,
                            t,
                            unjailed_signers@,
                            jailed_signers@,
                            party_i,
                            enq_count as int,
                            self.work_manager.max_enqueued_tasks as int,
                        ));
                    }
                },
            }
            proof {
                j = j + 1;
            }
        }
        proof {
            assert(spec_plan_entries(
                elig0,
                j,
                dkg_pub_key@,
                t,
                unjailed_signers@,
                jailed_signers@,
                party_i,
                enq_count as int,
                self.work_manager.max_enqueued_tasks as int,
            ) == Seq::<(int, u8, Seq<KeygenPartyId>, bool)>::empty());
            assert(entries.skip(tasks@.len() as int).len() == 0);
            assert(tasks@.len() == entries.len());
        }
        Ok(
            Some(
                SigningPlan {
                    session_id,
                    threshold: t,
                    party_i,
                    best_authorities: best,
                    associated_block_id: block_number,
                    tasks,
                },
            ),
        )
    }
}

/// Whether `parties` contains `me`.
fn contains_party(parties: &Vec<KeygenPartyId>, me: KeygenPartyId) -> (r: bool)
    ensures
        r == parties@.contains(me),
{
    let mut i: usize = 0;
    while i < parties.len()
        invariant
            0 <= i <= parties@.len(),
            forall|k: int| 0 <= k < i ==> parties@[k] != me,
        decreases parties@.len() - i,
    {
        if parties[i] == me {
            return true;
        }
        i += 1;
    }
    proof {
        assert(!parties@.contains(me));
    }
    false
}

} // verus!
