//! The work manager: a bounded scheduler for signing tasks.  It admits,
//! queues, starts and reaps jobs and routes peer messages to them, keeping
//! every fingerprint in at most one place at a time.  All decisions are made
//! here and verified; the effects they call for come back as [`Command`]s
//! for the embedding runtime to perform.

use vstd::prelude::*;

use crate::buffer::MessageQueueEntry;
use crate::buffer::buffer_drain;
use crate::buffer::buffer_gc;
use crate::buffer::buffer_lookup;
use crate::buffer::buffer_push;
use crate::buffer::buffer_wf;
use crate::buffer::spec_gc_queue;
use crate::job::Command;
use crate::job::Job;
use crate::job::JobMetadata;
use crate::job::ShutdownReason;
use crate::job::SignedMessage;
use crate::job::should_deliver;
use crate::job::spec_has_stalled;
use crate::job::spec_metadata;
use crate::job::spec_should_deliver;
use crate::job::spec_started;
use crate::types::SigningError;
use crate::types::TaskHash;
use crate::types::task_hash_eq;

verus! {

/// How the scheduler is advanced: by an internal interval driver (which the
/// embedding runtime runs, waking on a channel signalled at every push and
/// ticking every `millis`), or by explicit external calls of `poll`.
#[derive(Copy, Clone, PartialEq, Eq, Structural)]
pub enum PollMethod {
    Interval { millis: u64 },
    Manual,
}

/// The mutable scheduler state: running tasks, admitted-but-not-started
/// tasks in arrival order, and the buffer of early peer messages.
#[derive(Debug)]
pub struct WorkManagerInner {
    pub active_tasks: Vec<Job>,
    pub enqueued_tasks: Vec<Job>,
    pub enqueued_messages: Vec<MessageQueueEntry>,
}

/// The bounded scheduler.  `max_tasks` caps the running set (except for
/// force-started tasks), `max_enqueued_tasks` caps the queue.
pub struct WorkManager {
    pub inner: WorkManagerInner,
    pub max_tasks: usize,
    pub max_enqueued_tasks: usize,
    pub poll_method: PollMethod,
}

/// What became of a delivered message.
#[derive(Debug)]
pub enum DeliveryAction {
    /// A queued task matched; hand the message to its handle.
    ToEnqueuedJob { task_hash: TaskHash, message: SignedMessage },
    /// A running task matched; hand the message to its handle.
    ToActiveJob { task_hash: TaskHash, message: SignedMessage },
    /// No task matched; the message was parked for a future task.
    Buffered,
}

/// Whether some job in `s` carries the task hash `h`.
pub open spec fn contains_hash(s: Seq<Job>, h: Seq<u8>) -> bool {
    exists|i: int| 0 <= i < s.len() && s[i].task_hash@ == h
}

/// Pairwise-distinct task hashes.
pub open spec fn distinct_hashes(s: Seq<Job>) -> bool {
    forall|i: int, j: int| 0 <= i < j < s.len() ==> s[i].task_hash@ != s[j].task_hash@
}

/// No task hash occurs in both sequences.
pub open spec fn disjoint_hashes(a: Seq<Job>, b: Seq<Job>) -> bool {
    forall|i: int, j: int|
        0 <= i < a.len() && 0 <= j < b.len() ==> a[i].task_hash@ != b[j].task_hash@
}

/// A job the poll keeps: neither stalled nor done.
pub open spec fn spec_reap_keep(j: Job, now: int) -> bool {
    !spec_has_stalled(j, now) && !j.done
}

/// The reason a reaped job is shut down with: an explicit `Stalled` for a
/// stall, otherwise the drop-time `DropCode` of a finished task.
pub open spec fn spec_reap_reason(j: Job, now: int) -> ShutdownReason {
    if spec_has_stalled(j, now) {
        ShutdownReason::Stalled
    } else {
        ShutdownReason::DropCode
    }
}

/// The jobs the poll's reaping phase keeps, in order.
pub open spec fn spec_reap_active(s: Seq<Job>, now: int) -> Seq<Job>
    decreases s.len(),
{
    if s.len() == 0 {
        Seq::empty()
    } else {
        let rest = spec_reap_active(s.drop_first(), now);
        if spec_reap_keep(s[0], now) {
            seq![s[0]] + rest
        } else {
            rest
        }
    }
}

/// The shutdown commands the poll's reaping phase emits, in order.
pub open spec fn spec_reap_cmds(s: Seq<Job>, now: int) -> Seq<Command>
    decreases s.len(),
{
    if s.len() == 0 {
        Seq::empty()
    } else {
        let rest = spec_reap_cmds(s.drop_first(), now);
        if spec_reap_keep(s[0], now) {
            rest
        } else {
            seq![
                Command::Shutdown {
                    task_hash: s[0].task_hash,
                    reason: spec_reap_reason(s[0], now),
                },
            ] + rest
        }
    }
}

/// The delivery commands a freshly started `job` receives out of its
/// buffered queue `msgs`: every message that still passes the routing
/// predicate, in buffer order (first-in, first-out).
pub open spec fn spec_deliveries(job: Job, msgs: Seq<SignedMessage>) -> Seq<Command>
    decreases msgs.len(),
{
    if msgs.len() == 0 {
        Seq::empty()
    } else {
        let rest = spec_deliveries(job, msgs.drop_first());
        if spec_should_deliver(job, msgs[0], job.task_hash@) {
            seq![Command::Deliver { task_hash: job.task_hash, message: msgs[0] }] + rest
        } else {
            rest
        }
    }
}

/// The commands starting `job` emits against the buffer state `buffer`:
/// `Start`, then the surviving buffered messages in order.
pub open spec fn spec_start_cmds(job: Job, buffer: Seq<MessageQueueEntry>) -> Seq<Command> {
    seq![Command::Start { task_hash: job.task_hash }] + spec_deliveries(
        spec_started(job),
        buffer_lookup(buffer, job.task_hash@, job.ssid),
    )
}

/// `job` with its stall clock stamped to `now`.  Starting a queued task
/// measures stall from its actual start, so time spent waiting in the
/// queue is not counted as protocol stall and a poll is idempotent.
pub open spec fn spec_stamped(job: Job, now: u64) -> Job {
    Job { started_at: now, ..job }
}

/// The commands admitting the queued jobs `enq` at block `now` emits, job
/// by job.  Each job's deliveries come from its own `(hash, ssid)` queue of
/// `buffer`; queued hashes are distinct, so the queues do not interact.
pub open spec fn spec_admit_cmds(
    enq: Seq<Job>,
    buffer: Seq<MessageQueueEntry>,
    now: u64,
) -> Seq<Command>
    decreases enq.len(),
{
    if enq.len() == 0 {
        Seq::empty()
    } else {
        spec_start_cmds(spec_stamped(enq[0], now), buffer) + spec_admit_cmds(
            enq.drop_first(),
            buffer,
            now,
        )
    }
}

/// `s` with every job marked started at block `now`.
pub open spec fn spec_started_jobs(s: Seq<Job>, now: u64) -> Seq<Job> {
    Seq::new(s.len(), |i: int| spec_started(spec_stamped(s[i], now)))
}

/// How many queued jobs one poll admits: up to the free room under
/// `max_tasks`, and no more than are queued.
pub open spec fn spec_admit_count(active_len: int, enq_len: int, max_tasks: int) -> int {
    if active_len >= max_tasks {
        0
    } else if enq_len <= max_tasks - active_len {
        enq_len
    } else {
        max_tasks - active_len
    }
}

/// The wakeup signal a push emits under the interval poll method.
pub open spec fn spec_signal_cmds(pm: PollMethod, task_hash: TaskHash) -> Seq<Command> {
    match pm {
        PollMethod::Interval { .. } => seq![Command::Signal { task_hash }],
        PollMethod::Manual => Seq::empty(),
    }
}

/// `s` without the jobs that carry `h`, in order.
pub open spec fn spec_remove_hash(s: Seq<Job>, h: Seq<u8>) -> Seq<Job>
    decreases s.len(),
{
    if s.len() == 0 {
        Seq::empty()
    } else {
        let rest = spec_remove_hash(s.drop_first(), h);
        if s[0].task_hash@ == h {
            rest
        } else {
            seq![s[0]] + rest
        }
    }
}

/// The messages of `msgs` that belong to signing-set attempt `s`, in order.
pub open spec fn spec_repark(msgs: Seq<SignedMessage>, s: u8) -> Seq<SignedMessage>
    decreases msgs.len(),
{
    if msgs.len() == 0 {
        Seq::empty()
    } else {
        let rest = spec_repark(msgs.drop_first(), s);
        if msgs[0].ssid == s {
            seq![msgs[0]] + rest
        } else {
            rest
        }
    }
}

/// Re-parked messages grow at the back, on the queue of their own ssid.
proof fn lemma_repark_snoc(msgs: Seq<SignedMessage>, m: SignedMessage, s: u8)
    ensures
        spec_repark(msgs.push(m), s) == spec_repark(msgs, s) + (if m.ssid == s {
            seq![m]
        } else {
            Seq::<SignedMessage>::empty()
        }),
    decreases msgs.len(),
{
    if msgs.len() == 0 {
        assert(msgs.push(m)[0] == m);
        assert(msgs.push(m).drop_first() =~= msgs);
        assert(spec_repark(msgs.push(m), s) =~= spec_repark(msgs, s) + (if m.ssid == s {
            seq![m]
        } else {
            Seq::<SignedMessage>::empty()
        }));
    } else {
        assert(msgs.push(m)[0] == msgs[0]);
        assert(msgs.push(m).drop_first() =~= msgs.drop_first().push(m));
        lemma_repark_snoc(msgs.drop_first(), m, s);
        assert(spec_repark(msgs.push(m), s) =~= spec_repark(msgs, s) + (if m.ssid == s {
            seq![m]
        } else {
            Seq::<SignedMessage>::empty()
        }));
    }
}

/// Every job that survives the removal stood in the input, and pairwise
/// distinctness of the hashes survives too.
pub proof fn lemma_remove_hash_membership(s: Seq<Job>, h: Seq<u8>)
    ensures
        spec_remove_hash(s, h).len() <= s.len(),
        forall|k: int|
            0 <= k < spec_remove_hash(s, h).len() ==> exists|b: int|
                0 <= b < s.len() && #[trigger] spec_remove_hash(s, h)[k] == s[b],
        distinct_hashes(s) ==> distinct_hashes(spec_remove_hash(s, h)),
    decreases s.len(),
{
    if s.len() > 0 {
        let rest = s.drop_first();
        lemma_remove_hash_membership(rest, h);
        let kept = spec_remove_hash(s, h);
        let kr = spec_remove_hash(rest, h);
        assert forall|k: int| 0 <= k < kept.len() implies exists|b: int|
            0 <= b < s.len() && #[trigger] kept[k] == s[b] by {
            if s[0].task_hash@ != h && k == 0 {
                assert(kept[0] == s[0]);
            } else {
                let y = if s[0].task_hash@ != h {
                    k - 1
                } else {
                    k
                };
                assert(kept[k] == kr[y]);
                let b = choose|b: int| 0 <= b < rest.len() && kr[y] == rest[b];
                assert(kept[k] == s[b + 1]);
            }
        }
        if distinct_hashes(s) {
            assert(distinct_hashes(rest)) by {
                assert forall|x: int, y: int|
                    0 <= x < y < rest.len() implies rest[x].task_hash@ != rest[y].task_hash@ by {
                    assert(s[x + 1].task_hash@ != s[y + 1].task_hash@);
                }
            }
            assert forall|x: int, y: int|
                0 <= x < y < kept.len() implies kept[x].task_hash@ != kept[y].task_hash@ by {
                if s[0].task_hash@ != h && x == 0 {
                    assert(kept[y] == kr[y - 1]);
                    let b = choose|b: int| 0 <= b < rest.len() && kr[y - 1] == rest[b];
                    assert(s[0].task_hash@ != s[b + 1].task_hash@);
                } else {
                    let x2 = if s[0].task_hash@ != h {
                        x - 1
                    } else {
                        x
                    };
                    let y2 = if s[0].task_hash@ != h {
                        y - 1
                    } else {
                        y
                    };
                    assert(kept[x] == kr[x2]);
                    assert(kept[y] == kr[y2]);
                }
            }
        }
    }
}

/// The drop-time shutdown commands for the jobs of `s`, in order.
pub open spec fn spec_drop_cmds(s: Seq<Job>) -> Seq<Command> {
    Seq::new(
        s.len(),
        |i: int|
            Command::Shutdown { task_hash: s[i].task_hash, reason: ShutdownReason::DropCode },
    )
}

/// Every job the reaping phase keeps stood in the input, and kept hashes
/// stay pairwise distinct.
pub proof fn lemma_reap_membership(s: Seq<Job>, now: int)
    ensures
        forall|k: int|
            0 <= k < spec_reap_active(s, now).len() ==> exists|b: int|
                0 <= b < s.len() && #[trigger] spec_reap_active(s, now)[k] == s[b],
        spec_reap_active(s, now).len() <= s.len(),
        forall|h: Seq<u8>|
            #[trigger] contains_hash(spec_reap_active(s, now), h) ==> contains_hash(s, h),
        distinct_hashes(s) ==> distinct_hashes(spec_reap_active(s, now)),
    decreases s.len(),
{
    if s.len() > 0 {
        let rest = s.drop_first();
        lemma_reap_membership(rest, now);
        assert forall|b: int| 0 <= b < rest.len() implies rest[b] == s[b + 1] by {}
        let kept = spec_reap_active(s, now);
        if spec_reap_keep(s[0], now) {
            assert forall|k: int| 0 <= k < kept.len() implies exists|b: int|
                0 <= b < s.len() && #[trigger] kept[k] == s[b] by {
                if k == 0 {
                    assert(kept[0] == s[0]);
                } else {
                    let kr = spec_reap_active(rest, now);
                    assert(kept[k] == kr[k - 1]);
                    let b = choose|b: int| 0 <= b < rest.len() && kr[k - 1] == rest[b];
                    assert(kept[k] == s[b + 1]);
                }
            }
            assert forall|h: Seq<u8>| #[trigger] contains_hash(kept, h) implies contains_hash(
                s,
                h,
            ) by {
                let k = choose|k: int| 0 <= k < kept.len() && kept[k].task_hash@ == h;
                let b = choose|b: int| 0 <= b < s.len() && kept[k] == s[b];
                assert(s[b].task_hash@ == h);
            }
            if distinct_hashes(s) {
                assert(distinct_hashes(rest));
                let kr = spec_reap_active(rest, now);
                assert forall|i: int, j: int|
                    0 <= i < j < kept.len() implies kept[i].task_hash@ != kept[j].task_hash@ by {
                    if i == 0 {
                        assert(kept[j] == kr[j - 1]);
                        let b = choose|b: int| 0 <= b < rest.len() && kr[j - 1] == rest[b];
                        assert(s[0].task_hash@ != s[b + 1].task_hash@);
                    } else {
                        assert(kept[i] == kr[i - 1]);
                        assert(kept[j] == kr[j - 1]);
                    }
                }
            }
        } else {
            assert forall|k: int| 0 <= k < kept.len() implies exists|b: int|
                0 <= b < s.len() && #[trigger] kept[k] == s[b] by {
                let b = choose|b: int| 0 <= b < rest.len() && kept[k] == rest[b];
                assert(kept[k] == s[b + 1]);
            }
            assert forall|h: Seq<u8>| #[trigger] contains_hash(kept, h) implies contains_hash(
                s,
                h,
            ) by {
                let k = choose|k: int| 0 <= k < kept.len() && kept[k].task_hash@ == h;
                let b = choose|b: int| 0 <= b < s.len() && kept[k] == s[b];
                assert(s[b].task_hash@ == h);
            }
        }
    }
}

/// Every job the reaping phase keeps passes the keep predicate.
pub proof fn lemma_reap_keeps(s: Seq<Job>, now: int)
    ensures
        forall|k: int|
            0 <= k < spec_reap_active(s, now).len() ==> spec_reap_keep(
                #[trigger] spec_reap_active(s, now)[k],
                now,
            ),
    decreases s.len(),
{
    if s.len() > 0 {
        let rest = s.drop_first();
        lemma_reap_keeps(rest, now);
        let kept = spec_reap_active(s, now);
        assert forall|k: int| 0 <= k < kept.len() implies spec_reap_keep(
            #[trigger] kept[k],
            now,
        ) by {
            if spec_reap_keep(s[0], now) {
                if k > 0 {
                    assert(kept[k] == spec_reap_active(rest, now)[k - 1]);
                }
            } else {
                assert(kept[k] == spec_reap_active(rest, now)[k]);
            }
        }
    }
}

/// A running set every member of which passes the keep predicate survives
/// reaping unchanged, and reaping it emits no command.
pub proof fn lemma_reap_all_keep(s: Seq<Job>, now: int)
    requires
        forall|i: int| 0 <= i < s.len() ==> spec_reap_keep(#[trigger] s[i], now),
    ensures
        spec_reap_active(s, now) == s,
        spec_reap_cmds(s, now) == Seq::<Command>::empty(),
    decreases s.len(),
{
    if s.len() > 0 {
        lemma_reap_all_keep(s.drop_first(), now);
        assert(seq![s[0]] + s.drop_first() =~= s);
    }
}

/// Idempotence law: the state one poll leaves at block `now` is a fixed
/// point of another poll at the same block.  Every surviving or freshly
/// started task passes the keep predicate (a task started at `now` cannot
/// yet have stalled), so the second round reaps nothing; the second round
/// admits nothing, because the first stopped only at an empty queue or a
/// full running set; and the second garbage collection changes no queue,
/// because collection at one block is idempotent
/// ([`crate::buffer::lemma_gc_queue_idempotent`]).
pub proof fn lemma_poll_idempotent(a0: Seq<Job>, e0: Seq<Job>, now: u64, max_tasks: int)
    requires
        forall|i: int| 0 <= i < e0.len() ==> !(#[trigger] e0[i]).done,
    ensures
        ({
            let kept = spec_reap_active(a0, now as int);
            let k = spec_admit_count(kept.len() as int, e0.len() as int, max_tasks);
            let active1 = kept + spec_started_jobs(e0.take(k), now);
            let enqueued1 = e0.skip(k);
            &&& spec_reap_active(active1, now as int) == active1
            &&& spec_reap_cmds(active1, now as int) == Seq::<Command>::empty()
            &&& spec_admit_count(active1.len() as int, enqueued1.len() as int, max_tasks) == 0
        }),
{
    let kept = spec_reap_active(a0, now as int);
    let k = spec_admit_count(kept.len() as int, e0.len() as int, max_tasks);
    let started = spec_started_jobs(e0.take(k), now);
    let active1 = kept + started;
    lemma_reap_keeps(a0, now as int);
    assert forall|i: int| 0 <= i < active1.len() implies spec_reap_keep(
        #[trigger] active1[i],
        now as int,
    ) by {
        if i < kept.len() {
            assert(spec_reap_keep(kept[i], now as int));
        } else {
            let y = i - kept.len();
            assert(active1[i] == spec_started(spec_stamped(e0.take(k)[y], now)));
            assert(!e0[y].done);
        }
    }
    lemma_reap_all_keep(active1, now as int);
}
pub proof fn lemma_fingerprint_uniqueness(wm: WorkManager, h: Seq<u8>)
    requires
        wm.wf(),
    ensures
        !(contains_hash(wm.inner.active_tasks@, h) && contains_hash(wm.inner.enqueued_tasks@, h)),
{
    let a = wm.inner.active_tasks@;
    let e = wm.inner.enqueued_tasks@;
    if contains_hash(a, h) && contains_hash(e, h) {
        let i = choose|i: int| 0 <= i < a.len() && a[i].task_hash@ == h;
        let j = choose|j: int| 0 <= j < e.len() && e[j].task_hash@ == h;
        assert(a[i].task_hash@ != e[j].task_hash@);
    }
}

/// Bounds law for the running set: a poll leaves at most `max_tasks`
/// running tasks, except that force-started tasks may already have pushed
/// the set above the cap, in which case the poll does not grow it.
pub proof fn lemma_poll_active_bound(a0: Seq<Job>, e0: Seq<Job>, now: int, max_tasks: int)
    ensures
        ({
            let kept = spec_reap_active(a0, now);
            let k = spec_admit_count(kept.len() as int, e0.len() as int, max_tasks);
            kept.len() + k <= if a0.len() > max_tasks {
                a0.len() as int
            } else {
                max_tasks
            }
        }),
{
    lemma_reap_membership(a0, now);
}

/// Liveness-of-admission law: when the running set (even before reaping)
/// is below `max_tasks` and the queue is non-empty, a poll starts at least
/// one queued task, so the queue strictly shrinks.
pub proof fn lemma_admission_liveness(a0: Seq<Job>, e0: Seq<Job>, now: int, max_tasks: int)
    requires
        a0.len() < max_tasks,
        e0.len() > 0,
    ensures
        spec_admit_count(spec_reap_active(a0, now).len() as int, e0.len() as int, max_tasks) >= 1,
{
    lemma_reap_membership(a0, now);
}

/// Reaping drops every job it rejects: with distinct hashes, a job that is
/// stalled or done is absent from the kept set.
pub proof fn lemma_reap_excludes(s: Seq<Job>, now: int, i: int)
    requires
        distinct_hashes(s),
        0 <= i < s.len(),
        !spec_reap_keep(s[i], now),
    ensures
        !contains_hash(spec_reap_active(s, now), s[i].task_hash@),
    decreases s.len(),
{
    let rest = s.drop_first();
    let kept = spec_reap_active(s, now);
    lemma_reap_membership(rest, now);
    if i == 0 {
        if contains_hash(kept, s[0].task_hash@) {
            let x = choose|x: int| 0 <= x < kept.len() && kept[x].task_hash@ == s[0].task_hash@;
            let b = choose|b: int| 0 <= b < rest.len() && kept[x] == rest[b];
            assert(s[b + 1].task_hash@ != s[0].task_hash@);
        }
    } else {
        assert(distinct_hashes(rest)) by {
            assert forall|x: int, y: int|
                0 <= x < y < rest.len() implies rest[x].task_hash@ != rest[y].task_hash@ by {
                assert(s[x + 1].task_hash@ != s[y + 1].task_hash@);
            }
        }
        assert(rest[i - 1] == s[i]);
        lemma_reap_excludes(rest, now, i - 1);
        if spec_reap_keep(s[0], now) {
            if contains_hash(kept, s[i].task_hash@) {
                let x = choose|x: int| 0 <= x < kept.len() && kept[x].task_hash@ == s[i].task_hash@;
                if x == 0 {
                    assert(s[0].task_hash@ != s[i].task_hash@);
                } else {
                    assert(kept[x] == spec_reap_active(rest, now)[x - 1]);
                    assert(contains_hash(spec_reap_active(rest, now), s[i].task_hash@));
                }
            }
        }
    }
}

/// Reaping shuts down every job it rejects: the poll's reap commands hold
/// the job's shutdown, with `Stalled` as the reason when it stalled.
pub proof fn lemma_reap_cmds_contains(s: Seq<Job>, now: int, i: int)
    requires
        0 <= i < s.len(),
        !spec_reap_keep(s[i], now),
    ensures
        spec_reap_cmds(s, now).contains(
            Command::Shutdown { task_hash: s[i].task_hash, reason: spec_reap_reason(s[i], now) },
        ),
    decreases s.len(),
{
    let rest = s.drop_first();
    let cmds = spec_reap_cmds(s, now);
    if i == 0 {
        assert(cmds[0] == (Command::Shutdown {
            task_hash: s[0].task_hash,
            reason: spec_reap_reason(s[0], now),
        }));
    } else {
        assert(rest[i - 1] == s[i]);
        lemma_reap_cmds_contains(rest, now, i - 1);
        let target = Command::Shutdown {
            task_hash: s[i].task_hash,
            reason: spec_reap_reason(s[i], now),
        };
        let x = choose|x: int|
            0 <= x < spec_reap_cmds(rest, now).len() && spec_reap_cmds(rest, now)[x] == target;
        if spec_reap_keep(s[0], now) {
            assert(cmds[x] == target);
        } else {
            assert(cmds[x + 1] == target);
        }
    }
}

/// Stall-eviction law: a stalled running task is absent from the running
/// set a poll leaves behind — whatever the poll admits from the queue —
/// and the poll's commands shut its handle down with reason `Stalled`.
pub proof fn lemma_stall_eviction(a0: Seq<Job>, e0: Seq<Job>, now: u64, i: int, k: int)
    requires
        distinct_hashes(a0),
        disjoint_hashes(a0, e0),
        0 <= i < a0.len(),
        spec_has_stalled(a0[i], now as int),
        0 <= k <= e0.len(),
    ensures
        !contains_hash(
            spec_reap_active(a0, now as int) + spec_started_jobs(e0.take(k), now),
            a0[i].task_hash@,
        ),
        spec_reap_cmds(a0, now as int).contains(
            Command::Shutdown { task_hash: a0[i].task_hash, reason: ShutdownReason::Stalled },
        ),
{
    lemma_reap_excludes(a0, now as int, i);
    lemma_reap_cmds_contains(a0, now as int, i);
    assert(spec_reap_reason(a0[i], now as int) == ShutdownReason::Stalled);
    let fa = spec_reap_active(a0, now as int) + spec_started_jobs(e0.take(k), now);
    if contains_hash(fa, a0[i].task_hash@) {
        let x = choose|x: int| 0 <= x < fa.len() && fa[x].task_hash@ == a0[i].task_hash@;
        if x < spec_reap_active(a0, now as int).len() {
            assert(contains_hash(spec_reap_active(a0, now as int), a0[i].task_hash@));
        } else {
            let y = x - spec_reap_active(a0, now as int).len();
            assert(fa[x] == spec_started(spec_stamped(e0.take(k)[y], now)));
            assert(a0[i].task_hash@ != e0[y].task_hash@);
        }
    }
}

/// First-in-first-out delivery law: a started task receives its buffered
/// queue as delivery commands in buffer order; when every buffered message
/// still passes the routing predicate, it receives the whole queue,
/// message for message.
pub proof fn lemma_fifo_delivery(job: Job, msgs: Seq<SignedMessage>)
    requires
        forall|k: int|
            0 <= k < msgs.len() ==> spec_should_deliver(job, #[trigger] msgs[k], job.task_hash@),
    ensures
        spec_deliveries(job, msgs).len() == msgs.len(),
        forall|k: int|
            0 <= k < msgs.len() ==> spec_deliveries(job, msgs)[k] == (Command::Deliver {
                task_hash: job.task_hash,
                message: msgs[k],
            }),
    decreases msgs.len(),
{
    if msgs.len() > 0 {
        let rest = msgs.drop_first();
        assert forall|k: int|
            0 <= k < rest.len() implies spec_should_deliver(
            job,
            #[trigger] rest[k],
            job.task_hash@,
        ) by {
            assert(rest[k] == msgs[k + 1]);
        }
        lemma_fifo_delivery(job, rest);
        assert forall|k: int|
            0 <= k < msgs.len() implies spec_deliveries(job, msgs)[k] == (Command::Deliver {
            task_hash: job.task_hash,
            message: msgs[k],
        }) by {
            if k > 0 {
                assert(spec_deliveries(job, msgs)[k] == spec_deliveries(job, rest)[k - 1]);
                assert(rest[k - 1] == msgs[k]);
            }
        }
    }
}

/// The transition `deliver_message` makes from `pre` to `post` when routing
/// `msg`, addressed to `hash`, with outcome `r`: the first matching queued
/// task wins, then the first matching running task, and with no match the
/// message is parked at the back of its `(hash, ssid)` queue.
pub open spec fn spec_delivery_transition(
    pre: WorkManager,
    post: WorkManager,
    msg: SignedMessage,
    hash: TaskHash,
    r: DeliveryAction,
) -> bool {
    let a0 = pre.inner.active_tasks@;
    let e0 = pre.inner.enqueued_tasks@;
    let b0 = pre.inner.enqueued_messages@;
    &&& post.inner.active_tasks@ == a0
    &&& post.inner.enqueued_tasks@ == e0
    &&& if exists|i: int| 0 <= i < e0.len() && spec_should_deliver(e0[i], msg, hash@) {
        &&& r == (DeliveryAction::ToEnqueuedJob { task_hash: hash, message: msg })
        &&& post.inner.enqueued_messages@ == b0
    } else if exists|i: int| 0 <= i < a0.len() && spec_should_deliver(a0[i], msg, hash@) {
        &&& r == (DeliveryAction::ToActiveJob { task_hash: hash, message: msg })
        &&& post.inner.enqueued_messages@ == b0
    } else {
        &&& r == DeliveryAction::Buffered
        &&& buffer_lookup(post.inner.enqueued_messages@, hash@, msg.ssid) == buffer_lookup(
            b0,
            hash@,
            msg.ssid,
        ).push(msg)
        &&& forall|h: Seq<u8>, s: u8|
            !(h == hash@ && s == msg.ssid) ==> buffer_lookup(post.inner.enqueued_messages@, h, s)
                == buffer_lookup(b0, h, s)
    }
}

/// Admission commands grow at the back: admitting one more job appends its
/// start commands.
pub proof fn lemma_admit_cmds_snoc(p: Seq<Job>, j: Job, buffer: Seq<MessageQueueEntry>, now: u64)
    ensures
        spec_admit_cmds(p.push(j), buffer, now) == spec_admit_cmds(p, buffer, now)
            + spec_start_cmds(spec_stamped(j, now), buffer),
    decreases p.len(),
{
    if p.len() == 0 {
        assert(p.push(j)[0] == j);
        assert(p.push(j).drop_first() =~= p);
        assert(spec_admit_cmds(p, buffer, now) == Seq::<Command>::empty());
        assert(spec_admit_cmds(p.push(j), buffer, now) =~= spec_admit_cmds(p, buffer, now)
            + spec_start_cmds(spec_stamped(j, now), buffer));
    } else {
        assert(p.push(j)[0] == p[0]);
        assert(p.push(j).drop_first() =~= p.drop_first().push(j));
        lemma_admit_cmds_snoc(p.drop_first(), j, buffer, now);
        assert(spec_admit_cmds(p.push(j), buffer, now) =~= spec_admit_cmds(p, buffer, now)
            + spec_start_cmds(spec_stamped(j, now), buffer));
    }
}

impl WorkManager {
    /// The scheduler's invariant: a fingerprint stands in at most one of the
    /// running set and the queue, the queue respects its bound, running
    /// tasks have been started, queued ones have not, and the message
    /// buffer is well-formed.
    pub open spec fn wf(self) -> bool {
        &&& distinct_hashes(self.inner.active_tasks@)
        &&& distinct_hashes(self.inner.enqueued_tasks@)
        &&& disjoint_hashes(self.inner.active_tasks@, self.inner.enqueued_tasks@)
        &&& self.inner.enqueued_tasks@.len() <= self.max_enqueued_tasks
        &&& forall|i: int|
            0 <= i < self.inner.active_tasks@.len() ==> (#[trigger] self.inner.active_tasks@[i]).started
        &&& forall|i: int|
            0 <= i < self.inner.enqueued_tasks@.len() ==> !(
            #[trigger] self.inner.enqueued_tasks@[i]).started && !self.inner.enqueued_tasks@[i].done
        &&& buffer_wf(self.inner.enqueued_messages@)
    }

    /// The configuration does not change over the scheduler's lifetime.
    pub open spec fn same_config(self, other: WorkManager) -> bool {
        &&& self.max_tasks == other.max_tasks
        &&& self.max_enqueued_tasks == other.max_enqueued_tasks
        &&& self.poll_method == other.poll_method
    }

    /// An empty scheduler with the given bounds and poll method.
    pub fn new(max_tasks: usize, max_enqueued_tasks: usize, poll_method: PollMethod) -> (r:
        WorkManager)
        ensures
            r.wf(),
            r.inner.active_tasks@ == Seq::<Job>::empty(),
            r.inner.enqueued_tasks@ == Seq::<Job>::empty(),
            r.inner.enqueued_messages@ == Seq::<MessageQueueEntry>::empty(),
            r.max_tasks == max_tasks,
            r.max_enqueued_tasks == max_enqueued_tasks,
            r.poll_method == poll_method,
    {
        WorkManager {
            inner: WorkManagerInner {
                active_tasks: Vec::new(),
                enqueued_tasks: Vec::new(),
                enqueued_messages: Vec::new(),
            },
            max_tasks,
            max_enqueued_tasks,
            poll_method,
        }
    }

    /// Whether a task with this hash is running or queued.
    pub fn job_exists(&self, job: &TaskHash) -> (r: bool)
        ensures
            r == (contains_hash(self.inner.active_tasks@, job@) || contains_hash(
                self.inner.enqueued_tasks@,
                job@,
            )),
    {
        let mut i: usize = 0;
        while i < self.inner.active_tasks.len()
            invariant
                0 <= i <= self.inner.active_tasks@.len(),
                forall|k: int| 0 <= k < i ==> self.inner.active_tasks@[k].task_hash@ != job@,
            decreases self.inner.active_tasks@.len() - i,
        {
            if task_hash_eq(&self.inner.active_tasks[i].task_hash, job) {
                return true;
            }
            i += 1;
        }
        let mut j: usize = 0;
        while j < self.inner.enqueued_tasks.len()
            invariant
                forall|k: int| 0 <= k < self.inner.active_tasks@.len() ==> self.inner.active_tasks@[k].task_hash@ != job@,
                0 <= j <= self.inner.enqueued_tasks@.len(),
                forall|k: int| 0 <= k < j ==> self.inner.enqueued_tasks@[k].task_hash@ != job@,
            decreases self.inner.enqueued_tasks@.len() - j,
        {
            if task_hash_eq(&self.inner.enqueued_tasks[j].task_hash, job) {
                return true;
            }
            j += 1;
        }
        false
    }

    /// Whether another task may be submitted: the queue is below its bound.
    pub fn can_submit_more_tasks(&self) -> (r: bool)
        ensures
            r == (self.inner.enqueued_tasks@.len() < self.max_enqueued_tasks),
    {
        self.inner.enqueued_tasks.len() < self.max_enqueued_tasks
    }

    /// Snapshot of every running task's observable handle state at block
    /// `now`, in running-set order.
    pub fn get_active_sessions_metadata(&self, now: u64) -> (r: Vec<JobMetadata>)
        ensures
            r@.len() == self.inner.active_tasks@.len(),
            forall|k: int|
                0 <= k < r@.len() ==> r@[k] == spec_metadata(
                    self.inner.active_tasks@[k],
                    now as int,
                ),
    {
        let mut r: Vec<JobMetadata> = Vec::new();
        let mut i: usize = 0;
        while i < self.inner.active_tasks.len()
            invariant
                0 <= i <= self.inner.active_tasks@.len(),
                r@.len() == i,
                forall|k: int|
                    0 <= k < i ==> r@[k] == spec_metadata(
                        self.inner.active_tasks@[k],
                        now as int,
                    ),
            decreases self.inner.active_tasks@.len() - i,
        {
            r.push(self.inner.active_tasks[i].metadata(now));
            i += 1;
        }
        r
    }

    /// Records that the driver future of the running task `task_hash` has
    /// returned; the next poll reaps it.
    pub fn mark_task_done(&mut self, task_hash: &TaskHash)
        requires
            old(self).wf(),
        ensures
            final(self).wf(),
            old(self).same_config(*final(self)),
            final(self).inner.enqueued_tasks@ == old(self).inner.enqueued_tasks@,
            final(self).inner.enqueued_messages@ == old(self).inner.enqueued_messages@,
            final(self).inner.active_tasks@.len() == old(self).inner.active_tasks@.len(),
            forall|k: int|
                0 <= k < final(self).inner.active_tasks@.len()
                    ==> #[trigger] final(self).inner.active_tasks@[k] == (
                if old(self).inner.active_tasks@[k].task_hash@ == task_hash@ {
                    Job { done: true, ..old(self).inner.active_tasks@[k] }
                } else {
                    old(self).inner.active_tasks@[k]
                }),
    {
        let ghost a0 = self.inner.active_tasks@;
        let mut i: usize = 0;
        while i < self.inner.active_tasks.len()
            invariant
                old(self).wf(),
                0 <= i <= self.inner.active_tasks@.len(),
                self.inner.enqueued_tasks@ == old(self).inner.enqueued_tasks@,
                self.inner.enqueued_messages@ == old(self).inner.enqueued_messages@,
                old(self).same_config(*self),
                self.inner.active_tasks@.len() == a0.len(),
                a0 == old(self).inner.active_tasks@,
                forall|k: int|
                    0 <= k < self.inner.active_tasks@.len() ==> #[trigger] self.inner.active_tasks@[k]
                        == (if a0[k].task_hash@ == task_hash@ && k < i {
                        Job { done: true, ..a0[k] }
                    } else {
                        a0[k]
                    }),
            decreases self.inner.active_tasks@.len() - i,
        {
            if task_hash_eq(&self.inner.active_tasks[i].task_hash, task_hash) {
                let j2 = Job { done: true, ..self.inner.active_tasks[i] };
                self.inner.active_tasks[i] = j2;
            }
            i += 1;
        }
        proof {
            assert forall|i2: int, j2: int|
                0 <= i2 < j2 < self.inner.active_tasks@.len() implies self.inner.active_tasks@[i2].task_hash@
                != self.inner.active_tasks@[j2].task_hash@ by {
                assert(self.inner.active_tasks@[i2].task_hash@ == a0[i2].task_hash@);
                assert(self.inner.active_tasks@[j2].task_hash@ == a0[j2].task_hash@);
            }
            assert forall|i2: int, j2: int|
                0 <= i2 < self.inner.active_tasks@.len() && 0 <= j2
                    < self.inner.enqueued_tasks@.len() implies self.inner.active_tasks@[i2].task_hash@
                != self.inner.enqueued_tasks@[j2].task_hash@ by {
                assert(self.inner.active_tasks@[i2].task_hash@ == a0[i2].task_hash@);
            }
        }
    }

    /// Records that the runtime could not start the task `task_hash`: the
    /// start is aborted.  The job leaves the running set (releasing the
    /// real handle shuts the protocol down), and the delivery commands the
    /// start had emitted are undone by handing their messages back: each is
    /// parked again, in order, on the queue of its own signing-set attempt,
    /// so the messages can serve a later attempt.
    pub fn mark_start_failed(&mut self, task_hash: &TaskHash, undelivered: Vec<SignedMessage>)
        requires
            old(self).wf(),
        ensures
            final(self).wf(),
            old(self).same_config(*final(self)),
            final(self).inner.active_tasks@ == spec_remove_hash(
                old(self).inner.active_tasks@,
                task_hash@,
            ),
            final(self).inner.enqueued_tasks@ == old(self).inner.enqueued_tasks@,
            forall|s: u8|
                #[trigger] buffer_lookup(final(self).inner.enqueued_messages@, task_hash@, s)
                    == buffer_lookup(old(self).inner.enqueued_messages@, task_hash@, s)
                    + spec_repark(undelivered@, s),
            forall|h: Seq<u8>, s: u8|
                h != task_hash@ ==> buffer_lookup(final(self).inner.enqueued_messages@, h, s)
                    == buffer_lookup(old(self).inner.enqueued_messages@, h, s),
    {
        let ghost a0 = self.inner.active_tasks@;
        let mut kept_active: Vec<Job> = Vec::new();
        let mut i: usize = 0;
        proof {
            assert(a0.skip(0) =~= a0);
            assert(kept_active@ + spec_remove_hash(a0.skip(0), task_hash@) =~= spec_remove_hash(
                a0,
                task_hash@,
            ));
        }
        while i < self.inner.active_tasks.len()
            invariant
                *self == *old(self),
                old(self).wf(),
                a0 == self.inner.active_tasks@,
                0 <= i <= a0.len(),
                kept_active@ + spec_remove_hash(a0.skip(i as int), task_hash@)
                    == spec_remove_hash(a0, task_hash@),
            decreases a0.len() - i,
        {
            let job = self.inner.active_tasks[i];
            let ghost rest0 = a0.skip(i as int);
            proof {
                assert(rest0[0] == a0[i as int]);
                assert(rest0.drop_first() =~= a0.skip(i as int + 1));
            }
            if !task_hash_eq(&job.task_hash, task_hash) {
                kept_active.push(job);
                proof {
                    assert(spec_remove_hash(rest0, task_hash@) == seq![job] + spec_remove_hash(
                        rest0.drop_first(),
                        task_hash@,
                    ));
                    assert(kept_active@ + spec_remove_hash(a0.skip(i as int + 1), task_hash@)
                        =~= spec_remove_hash(a0, task_hash@));
                }
            } else {
                proof {
                    assert(spec_remove_hash(rest0, task_hash@) == spec_remove_hash(
                        rest0.drop_first(),
                        task_hash@,
                    ));
                }
            }
            i += 1;
        }
        proof {
            assert(a0.skip(a0.len() as int) =~= Seq::<Job>::empty());
            assert(kept_active@ =~= kept_active@ + spec_remove_hash(
                Seq::<Job>::empty(),
                task_hash@,
            ));
        }
        self.inner.active_tasks = kept_active;
        let ghost b0 = self.inner.enqueued_messages@;
        let ghost u0 = undelivered@;
        let mut rest = undelivered;
        let ghost mut p: int = 0;
        proof {
            assert forall|s: u8|
                #[trigger] buffer_lookup(self.inner.enqueued_messages@, task_hash@, s)
                    == buffer_lookup(b0, task_hash@, s) + spec_repark(u0.take(0), s) by {
                assert(u0.take(0) =~= Seq::<SignedMessage>::empty());
                assert(buffer_lookup(b0, task_hash@, s) + spec_repark(u0.take(0), s)
                    =~= buffer_lookup(b0, task_hash@, s));
            }
        }
        while rest.len() > 0
            invariant
                old(self).same_config(*self),
                self.inner.active_tasks@ == spec_remove_hash(a0, task_hash@),
                self.inner.enqueued_tasks@ == old(self).inner.enqueued_tasks@,
                0 <= p <= u0.len(),
                rest@ == u0.skip(p),
                buffer_wf(self.inner.enqueued_messages@),
                forall|s: u8|
                    #[trigger] buffer_lookup(self.inner.enqueued_messages@, task_hash@, s)
                        == buffer_lookup(b0, task_hash@, s) + spec_repark(u0.take(p), s),
                forall|h: Seq<u8>, s: u8|
                    h != task_hash@ ==> buffer_lookup(self.inner.enqueued_messages@, h, s)
                        == buffer_lookup(b0, h, s),
            decreases rest.len(),
        {
            let ghost bpre = self.inner.enqueued_messages@;
            let m = rest.remove(0);
            proof {
                assert(m == u0[p]);
                assert(rest@ =~= u0.skip(p + 1));
            }
            let ghost m_ssid = m.ssid;
            buffer_push(&mut self.inner.enqueued_messages, task_hash, m);
            proof {
                assert(u0.take(p + 1) =~= u0.take(p).push(u0[p]));
                assert forall|s: u8|
                    #[trigger] buffer_lookup(self.inner.enqueued_messages@, task_hash@, s)
                        == buffer_lookup(b0, task_hash@, s) + spec_repark(u0.take(p + 1), s) by {
                    lemma_repark_snoc(u0.take(p), u0[p], s);
                    if s == m_ssid {
                        assert(buffer_lookup(self.inner.enqueued_messages@, task_hash@, s)
                            == buffer_lookup(bpre, task_hash@, s).push(u0[p]));
                        assert(buffer_lookup(b0, task_hash@, s) + spec_repark(u0.take(p + 1), s)
                            =~= (buffer_lookup(b0, task_hash@, s) + spec_repark(
                            u0.take(p),
                            s,
                        )).push(u0[p]));
                    } else {
                        assert(buffer_lookup(self.inner.enqueued_messages@, task_hash@, s)
                            == buffer_lookup(bpre, task_hash@, s));
                        assert(spec_repark(u0.take(p + 1), s) =~= spec_repark(u0.take(p), s));
                    }
                }
                p = p + 1;
            }
        }
        proof {
            assert(u0.take(p) =~= u0);
            lemma_remove_hash_membership(a0, task_hash@);
            let fa = self.inner.active_tasks@;
            assert forall|x: int, y: int|
                0 <= x < fa.len() && 0 <= y < self.inner.enqueued_tasks@.len() implies fa[x].task_hash@
                != self.inner.enqueued_tasks@[y].task_hash@ by {
                let b = choose|b: int| 0 <= b < a0.len() && fa[x] == a0[b];
                assert(a0[b].task_hash@ != old(self).inner.enqueued_tasks@[y].task_hash@);
            }
            assert forall|x: int| 0 <= x < fa.len() implies (#[trigger] fa[x]).started by {
                let b = choose|b: int| 0 <= b < a0.len() && fa[x] == a0[b];
                assert(a0[b].started);
            }
        }
    }

    /// Shuts everything down: every running and queued task gets a
    /// drop-time shutdown command, and all buffered messages are discarded.
    pub fn force_shutdown_all(&mut self) -> (cmds: Vec<Command>)
        requires
            old(self).wf(),
        ensures
            final(self).wf(),
            old(self).same_config(*final(self)),
            final(self).inner.active_tasks@ == Seq::<Job>::empty(),
            final(self).inner.enqueued_tasks@ == Seq::<Job>::empty(),
            final(self).inner.enqueued_messages@ == Seq::<MessageQueueEntry>::empty(),
            cmds@ == spec_drop_cmds(old(self).inner.active_tasks@) + spec_drop_cmds(
                old(self).inner.enqueued_tasks@,
            ),
    {
        let ghost a0 = self.inner.active_tasks@;
        let ghost e0 = self.inner.enqueued_tasks@;
        let mut cmds: Vec<Command> = Vec::new();
        let mut i: usize = 0;
        while i < self.inner.active_tasks.len()
            invariant
                0 <= i <= a0.len(),
                self.inner.active_tasks@ == a0,
                cmds@ == spec_drop_cmds(a0).take(i as int),
            decreases a0.len() - i,
        {
            cmds.push(
                Command::Shutdown {
                    task_hash: self.inner.active_tasks[i].task_hash,
                    reason: ShutdownReason::DropCode,
                },
            );
            proof {
                assert(cmds@ =~= spec_drop_cmds(a0).take(i + 1));
            }
            i += 1;
        }
        proof {
            assert(cmds@ =~= spec_drop_cmds(a0));
        }
        let mut j: usize = 0;
        while j < self.inner.enqueued_tasks.len()
            invariant
                0 <= j <= e0.len(),
                self.inner.enqueued_tasks@ == e0,
                cmds@ == spec_drop_cmds(a0) + spec_drop_cmds(e0).take(j as int),
            decreases e0.len() - j,
        {
            cmds.push(
                Command::Shutdown {
                    task_hash: self.inner.enqueued_tasks[j].task_hash,
                    reason: ShutdownReason::DropCode,
                },
            );
            proof {
                assert(cmds@ =~= spec_drop_cmds(a0) + spec_drop_cmds(e0).take(j + 1));
            }
            j += 1;
        }
        proof {
            assert(cmds@ =~= spec_drop_cmds(a0) + spec_drop_cmds(e0));
        }
        self.inner.active_tasks = Vec::new();
        self.inner.enqueued_tasks = Vec::new();
        self.inner.enqueued_messages = Vec::new();
        cmds
    }

    /// Starts `job` now: emits `Start`, drains the buffered messages for its
    /// `(hash, ssid)` pair in order (delivering those that still pass the
    /// routing predicate), and moves the job into the running set.
    fn start_job_unconditional(&mut self, job: Job, cmds: &mut Vec<Command>)
        requires
            buffer_wf(old(self).inner.enqueued_messages@),
            !job.started,
            !job.done,
            !contains_hash(old(self).inner.active_tasks@, job.task_hash@),
        ensures
            old(self).same_config(*final(self)),
            final(self).inner.active_tasks@ == old(self).inner.active_tasks@.push(
                spec_started(job),
            ),
            final(self).inner.enqueued_tasks@ == old(self).inner.enqueued_tasks@,
            buffer_wf(final(self).inner.enqueued_messages@),
            buffer_lookup(final(self).inner.enqueued_messages@, job.task_hash@, job.ssid) == Seq::<
                SignedMessage,
            >::empty(),
            forall|h: Seq<u8>, s: u8|
                !(h == job.task_hash@ && s == job.ssid) ==> buffer_lookup(
                    final(self).inner.enqueued_messages@,
                    h,
                    s,
                ) == buffer_lookup(old(self).inner.enqueued_messages@, h, s),
            final(cmds)@ == old(cmds)@ + spec_start_cmds(job, old(self).inner.enqueued_messages@),
    {
        let ghost cmds0 = cmds@;
        let ghost b0 = self.inner.enqueued_messages@;
        cmds.push(Command::Start { task_hash: job.task_hash });
        let drained = buffer_drain(&mut self.inner.enqueued_messages, &job.task_hash, job.ssid);
        let started = Job { started: true, ..job };
        let ghost base = cmds0 + spec_start_cmds(job, b0);
        let mut rest = drained;
        proof {
            assert(cmds@ + spec_deliveries(started, rest@) =~= base);
        }
        while rest.len() > 0
            invariant
                cmds@ + spec_deliveries(started, rest@) == base,
                started == spec_started(job),
            decreases rest.len(),
        {
            let ghost rest0 = rest@;
            let ghost cprev = cmds@;
            let m = rest.remove(0);
            proof {
                assert(rest@ =~= rest0.drop_first());
            }
            if should_deliver(&started, &m, &started.task_hash) {
                cmds.push(Command::Deliver { task_hash: started.task_hash, message: m });
                proof {
                    assert(spec_deliveries(started, rest0) == seq![
                        Command::Deliver { task_hash: started.task_hash, message: m },
                    ] + spec_deliveries(started, rest@));
                    assert(cmds@ + spec_deliveries(started, rest@) =~= cprev + spec_deliveries(
                        started,
                        rest0,
                    ));
                }
            } else {
                proof {
                    assert(spec_deliveries(started, rest0) == spec_deliveries(started, rest@));
                }
            }
        }
        proof {
            assert(spec_deliveries(started, rest@) == Seq::<Command>::empty());
            assert(cmds@ =~= cmds@ + spec_deliveries(started, rest@));
        }
        self.inner.active_tasks.push(started);
    }

    /// Submits a task.  A hash already running or queued is a no-op
    /// admission (nothing changes, no command is emitted).  With
    /// `force_start` the task starts immediately, bypassing both bounds;
    /// otherwise it joins the queue, which fails with `AdmissionOverflow`
    /// when the queue is full.  Under the interval poll method a queued
    /// task also signals the wakeup channel.
    pub fn push_task(&mut self, job: Job, force_start: bool) -> (r: Result<
        Vec<Command>,
        SigningError,
    >)
        requires
            old(self).wf(),
            !job.started,
            !job.done,
        ensures
            final(self).wf(),
            old(self).same_config(*final(self)),
            ({
                let a0 = old(self).inner.active_tasks@;
                let e0 = old(self).inner.enqueued_tasks@;
                let b0 = old(self).inner.enqueued_messages@;
                let h = job.task_hash@;
                if contains_hash(a0, h) || contains_hash(e0, h) {
                    &&& r matches Ok(cmds) && cmds@ == Seq::<Command>::empty()
                    &&& final(self).inner.active_tasks@ == a0
                    &&& final(self).inner.enqueued_tasks@ == e0
                    &&& final(self).inner.enqueued_messages@ == b0
                } else if force_start {
                    &&& r matches Ok(cmds) && cmds@ == spec_start_cmds(job, b0)
                    &&& final(self).inner.active_tasks@ == a0.push(spec_started(job))
                    &&& final(self).inner.enqueued_tasks@ == e0
                    &&& buffer_lookup(final(self).inner.enqueued_messages@, h, job.ssid) == Seq::<
                        SignedMessage,
                    >::empty()
                    &&& forall|h2: Seq<u8>, s2: u8|
                        !(h2 == h && s2 == job.ssid) ==> buffer_lookup(
                            final(self).inner.enqueued_messages@,
                            h2,
                            s2,
                        ) == buffer_lookup(b0, h2, s2)
                } else if e0.len() >= old(self).max_enqueued_tasks {
                    &&& r == Err::<Vec<Command>, SigningError>(SigningError::AdmissionOverflow)
                    &&& final(self).inner.active_tasks@ == a0
                    &&& final(self).inner.enqueued_tasks@ == e0
                    &&& final(self).inner.enqueued_messages@ == b0
                } else {
                    &&& r matches Ok(cmds) && cmds@ == spec_signal_cmds(
                        old(self).poll_method,
                        job.task_hash,
                    )
                    &&& final(self).inner.active_tasks@ == a0
                    &&& final(self).inner.enqueued_tasks@ == e0.push(job)
                    &&& final(self).inner.enqueued_messages@ == b0
                }
            }),
    {
        if self.job_exists(&job.task_hash) {
            return Ok(Vec::new());
        }
        if force_start {
            let mut cmds: Vec<Command> = Vec::new();
            self.start_job_unconditional(job, &mut cmds);
            proof {
                let a2 = self.inner.active_tasks@;
                let a0 = old(self).inner.active_tasks@;
                assert forall|i: int, j: int|
                    0 <= i < j < a2.len() implies a2[i].task_hash@ != a2[j].task_hash@ by {
                    if j == a2.len() - 1 {
                        assert(a2[i] == a0[i]);
                        assert(!contains_hash(a0, job.task_hash@));
                    } else {
                        assert(a2[i] == a0[i]);
                        assert(a2[j] == a0[j]);
                    }
                }
                assert forall|i: int, j: int|
                    0 <= i < a2.len() && 0 <= j < self.inner.enqueued_tasks@.len() implies a2[i].task_hash@
                    != self.inner.enqueued_tasks@[j].task_hash@ by {
                    if i < a2.len() - 1 {
                        assert(a2[i] == a0[i]);
                    } else {
                        assert(!contains_hash(old(self).inner.enqueued_tasks@, job.task_hash@));
                    }
                }
            }
            return Ok(cmds);
        }
        if self.inner.enqueued_tasks.len() >= self.max_enqueued_tasks {
            return Err(SigningError::AdmissionOverflow);
        }
        self.inner.enqueued_tasks.push(job);
        proof {
            let e2 = self.inner.enqueued_tasks@;
            let e0 = old(self).inner.enqueued_tasks@;
            assert forall|i: int, j: int|
                0 <= i < j < e2.len() implies e2[i].task_hash@ != e2[j].task_hash@ by {
                if j == e2.len() - 1 {
                    assert(e2[i] == e0[i]);
                    assert(!contains_hash(e0, job.task_hash@));
                } else {
                    assert(e2[i] == e0[i]);
                    assert(e2[j] == e0[j]);
                }
            }
            assert forall|i: int, j: int|
                0 <= i < self.inner.active_tasks@.len() && 0 <= j < e2.len() implies self.inner.active_tasks@[i].task_hash@
                != e2[j].task_hash@ by {
                if j < e2.len() - 1 {
                    assert(e2[j] == e0[j]);
                } else {
                    assert(!contains_hash(self.inner.active_tasks@, job.task_hash@));
                }
            }
        }
        let mut cmds: Vec<Command> = Vec::new();
        match self.poll_method {
            PollMethod::Interval { .. } => {
                cmds.push(Command::Signal { task_hash: job.task_hash });
                proof {
                    assert(cmds@ =~= spec_signal_cmds(self.poll_method, job.task_hash));
                }
            },
            PollMethod::Manual => {
                proof {
                    assert(cmds@ =~= spec_signal_cmds(self.poll_method, job.task_hash));
                }
            },
        }
        Ok(cmds)
    }

    /// Routes `msg`, addressed to task `message_task_hash`.  The first
    /// matching queued task wins, then the first matching running task;
    /// with no match the message is parked for a future task under
    /// `(message_task_hash, msg.ssid)`, behind earlier arrivals.
    pub fn deliver_message(&mut self, msg: SignedMessage, message_task_hash: TaskHash) -> (r:
        DeliveryAction)
        requires
            old(self).wf(),
        ensures
            final(self).wf(),
            old(self).same_config(*final(self)),
            spec_delivery_transition(*old(self), *final(self), msg, message_task_hash, r),
    {
        let mut i: usize = 0;
        while i < self.inner.enqueued_tasks.len()
            invariant
                *self == *old(self),
                old(self).wf(),
                0 <= i <= self.inner.enqueued_tasks@.len(),
                forall|k: int|
                    0 <= k < i ==> !spec_should_deliver(
                        self.inner.enqueued_tasks@[k],
                        msg,
                        message_task_hash@,
                    ),
            decreases self.inner.enqueued_tasks@.len() - i,
        {
            if should_deliver(&self.inner.enqueued_tasks[i], &msg, &message_task_hash) {
                return DeliveryAction::ToEnqueuedJob { task_hash: message_task_hash, message: msg };
            }
            i += 1;
        }
        let mut j: usize = 0;
        while j < self.inner.active_tasks.len()
            invariant
                *self == *old(self),
                old(self).wf(),
                forall|k: int|
                    0 <= k < self.inner.enqueued_tasks@.len() ==> !spec_should_deliver(
                        self.inner.enqueued_tasks@[k],
                        msg,
                        message_task_hash@,
                    ),
                0 <= j <= self.inner.active_tasks@.len(),
                forall|k: int|
                    0 <= k < j ==> !spec_should_deliver(
                        self.inner.active_tasks@[k],
                        msg,
                        message_task_hash@,
                    ),
            decreases self.inner.active_tasks@.len() - j,
        {
            if should_deliver(&self.inner.active_tasks[j], &msg, &message_task_hash) {
                return DeliveryAction::ToActiveJob { task_hash: message_task_hash, message: msg };
            }
            j += 1;
        }
        buffer_push(&mut self.inner.enqueued_messages, &message_task_hash, msg);
        DeliveryAction::Buffered
    }

    /// One scheduling round at block `now`.  Reaps the running set (stalled
    /// tasks are shut down with `Stalled`, finished ones released with the
    /// drop-time `DropCode`), then starts queued tasks in arrival order
    /// while room remains under `max_tasks`, then garbage-collects the
    /// message buffer against `now`.
    pub fn poll(&mut self, now: u64) -> (cmds: Vec<Command>)
        requires
            old(self).wf(),
        ensures
            final(self).wf(),
            old(self).same_config(*final(self)),
            ({
                let a0 = old(self).inner.active_tasks@;
                let e0 = old(self).inner.enqueued_tasks@;
                let b0 = old(self).inner.enqueued_messages@;
                let kept = spec_reap_active(a0, now as int);
                let k = spec_admit_count(
                    kept.len() as int,
                    e0.len() as int,
                    old(self).max_tasks as int,
                );
                &&& final(self).inner.active_tasks@ == kept + spec_started_jobs(e0.take(k), now)
                &&& final(self).inner.enqueued_tasks@ == e0.skip(k)
                &&& cmds@ == spec_reap_cmds(a0, now as int) + spec_admit_cmds(e0.take(k), b0, now)
                &&& forall|h: Seq<u8>, s: u8|
                    #[trigger] buffer_lookup(final(self).inner.enqueued_messages@, h, s)
                        == spec_gc_queue(
                        if (exists|u: int|
                            0 <= u < k && e0[u].task_hash@ == h && e0[u].ssid == s) {
                            Seq::<SignedMessage>::empty()
                        } else {
                            buffer_lookup(b0, h, s)
                        },
                        now as int,
                    )
            }),
    {
        let ghost a0 = self.inner.active_tasks@;
        let ghost e0 = self.inner.enqueued_tasks@;
        let ghost b0 = self.inner.enqueued_messages@;
        let mut cmds: Vec<Command> = Vec::new();

        // Reap: keep what is neither stalled nor done, shut the rest down.
        let mut kept_active: Vec<Job> = Vec::new();
        let mut i: usize = 0;
        proof {
            assert(a0.skip(0) =~= a0);
            assert(kept_active@ + spec_reap_active(a0.skip(0), now as int) =~= spec_reap_active(
                a0,
                now as int,
            ));
            assert(cmds@ + spec_reap_cmds(a0.skip(0), now as int) =~= spec_reap_cmds(
                a0,
                now as int,
            ));
        }
        while i < self.inner.active_tasks.len()
            invariant
                *self == *old(self),
                old(self).wf(),
                a0 == self.inner.active_tasks@,
                0 <= i <= a0.len(),
                kept_active@ + spec_reap_active(a0.skip(i as int), now as int) == spec_reap_active(
                    a0,
                    now as int,
                ),
                cmds@ + spec_reap_cmds(a0.skip(i as int), now as int) == spec_reap_cmds(
                    a0,
                    now as int,
                ),
            decreases a0.len() - i,
        {
            let job = self.inner.active_tasks[i];
            let ghost rest0 = a0.skip(i as int);
            proof {
                assert(rest0[0] == a0[i as int]);
                assert(rest0.drop_first() =~= a0.skip(i as int + 1));
            }
            let stalled = job.has_stalled(now);
            if !stalled && !job.done {
                kept_active.push(job);
                proof {
                    assert(spec_reap_active(rest0, now as int) == seq![job] + spec_reap_active(
                        rest0.drop_first(),
                        now as int,
                    ));
                    assert(kept_active@ + spec_reap_active(a0.skip(i as int + 1), now as int)
                        =~= spec_reap_active(a0, now as int));
                }
            } else {
                let reason = if stalled {
                    ShutdownReason::Stalled
                } else {
                    ShutdownReason::DropCode
                };
                cmds.push(Command::Shutdown { task_hash: job.task_hash, reason });
                proof {
                    assert(spec_reap_cmds(rest0, now as int) == seq![
                        Command::Shutdown {
                            task_hash: job.task_hash,
                            reason: spec_reap_reason(job, now as int),
                        },
                    ] + spec_reap_cmds(rest0.drop_first(), now as int));
                    assert(cmds@ + spec_reap_cmds(a0.skip(i as int + 1), now as int)
                        =~= spec_reap_cmds(a0, now as int));
                }
            }
            i += 1;
        }
        proof {
            assert(a0.skip(a0.len() as int) =~= Seq::<Job>::empty());
            assert(kept_active@ =~= kept_active@ + spec_reap_active(
                Seq::<Job>::empty(),
                now as int,
            ));
            assert(cmds@ =~= cmds@ + spec_reap_cmds(Seq::<Job>::empty(), now as int));
        }
        self.inner.active_tasks = kept_active;
        let ghost kept = spec_reap_active(a0, now as int);
        proof {
            lemma_reap_membership(a0, now as int);
        }

        // Admit: start queued tasks in order while room remains.
        let ghost mut t: int = 0;
        proof {
            assert(e0.take(0) =~= Seq::<Job>::empty());
            assert(e0.skip(0) =~= e0);
            assert(self.inner.active_tasks@ =~= kept + spec_started_jobs(e0.take(0), now));
            assert(cmds@ =~= spec_reap_cmds(a0, now as int) + spec_admit_cmds(e0.take(0), b0, now));
        }
        while self.inner.active_tasks.len() < self.max_tasks && self.inner.enqueued_tasks.len() > 0
            invariant
                old(self).wf(),
                old(self).same_config(*self),
                a0 == old(self).inner.active_tasks@,
                e0 == old(self).inner.enqueued_tasks@,
                b0 == old(self).inner.enqueued_messages@,
                kept == spec_reap_active(a0, now as int),
                kept.len() <= a0.len(),
                forall|x: int|
                    0 <= x < kept.len() ==> exists|b: int| 0 <= b < a0.len() && #[trigger] kept[x]
                        == a0[b],
                0 <= t <= e0.len(),
                self.inner.enqueued_tasks@ == e0.skip(t),
                self.inner.active_tasks@ == kept + spec_started_jobs(e0.take(t), now),
                cmds@ == spec_reap_cmds(a0, now as int) + spec_admit_cmds(e0.take(t), b0, now),
                buffer_wf(self.inner.enqueued_messages@),
                forall|h: Seq<u8>, s: u8|
                    #[trigger] buffer_lookup(self.inner.enqueued_messages@, h, s) == (if (
                    exists|u: int| 0 <= u < t && e0[u].task_hash@ == h && e0[u].ssid == s) {
                        Seq::<SignedMessage>::empty()
                    } else {
                        buffer_lookup(b0, h, s)
                    }),
                t == 0 || kept.len() + t <= self.max_tasks,
            decreases e0.len() - t,
        {
            let ghost bpre = self.inner.enqueued_messages@;
            let ghost cpre = cmds@;
            let popped = self.inner.enqueued_tasks.remove(0);
            // starting stamps the stall clock: stall is measured from the
            // actual start, not from the block the task was planned at
            let job = Job { started_at: now, ..popped };
            proof {
                assert(popped == e0[t]);
                assert(job == spec_stamped(e0[t], now));
                assert(job.task_hash@ == e0[t].task_hash@ && job.ssid == e0[t].ssid);
                assert(self.inner.enqueued_tasks@ =~= e0.skip(t + 1));
                assert(!job.started && !job.done);
                assert forall|x: int|
                    0 <= x < self.inner.active_tasks@.len() implies (
                #[trigger] self.inner.active_tasks@[x]).task_hash@ != job.task_hash@ by {
                    if x < kept.len() {
                        let b = choose|b: int| 0 <= b < a0.len() && kept[x] == a0[b];
                        assert(a0[b].task_hash@ != e0[t].task_hash@);
                    } else {
                        let y = x - kept.len();
                        assert(self.inner.active_tasks@[x] == spec_started(spec_stamped(e0.take(t)[y], now)));
                        assert(e0[y].task_hash@ != e0[t].task_hash@);
                    }
                }
                assert(!contains_hash(self.inner.active_tasks@, job.task_hash@));
                // The job's queue in the current buffer is its original queue:
                // earlier admissions drained other hashes only.
                assert(buffer_lookup(bpre, job.task_hash@, job.ssid) == buffer_lookup(
                    b0,
                    job.task_hash@,
                    job.ssid,
                )) by {
                    if exists|u: int|
                        0 <= u < t && e0[u].task_hash@ == job.task_hash@ && e0[u].ssid == job.ssid {
                        let u = choose|u: int|
                            0 <= u < t && e0[u].task_hash@ == job.task_hash@ && e0[u].ssid
                                == job.ssid;
                        assert(e0[u].task_hash@ != e0[t].task_hash@);
                        assert(false);
                    }
                }
            }
            let ghost apre = self.inner.active_tasks@;
            self.start_job_unconditional(job, &mut cmds);
            proof {
                assert(spec_start_cmds(job, bpre) == spec_start_cmds(job, b0));
                assert(e0.take(t + 1) =~= e0.take(t).push(e0[t]));
                lemma_admit_cmds_snoc(e0.take(t), e0[t], b0, now);
                assert(cmds@ =~= spec_reap_cmds(a0, now as int) + spec_admit_cmds(
                    e0.take(t + 1),
                    b0,
                    now,
                ));
                assert(self.inner.active_tasks@ =~= kept + spec_started_jobs(e0.take(t + 1), now));
                assert forall|h: Seq<u8>, s: u8|
                    #[trigger] buffer_lookup(self.inner.enqueued_messages@, h, s) == (if (
                    exists|u: int| 0 <= u < t + 1 && e0[u].task_hash@ == h && e0[u].ssid == s) {
                        Seq::<SignedMessage>::empty()
                    } else {
                        buffer_lookup(b0, h, s)
                    }) by {
                    if h == job.task_hash@ && s == job.ssid {
                        assert(e0[t].task_hash@ == h && e0[t].ssid == s);
                    } else {
                        assert(buffer_lookup(self.inner.enqueued_messages@, h, s)
                            == buffer_lookup(bpre, h, s));
                        if exists|u: int| 0 <= u < t + 1 && e0[u].task_hash@ == h && e0[u].ssid
                            == s {
                            let u = choose|u: int|
                                0 <= u < t + 1 && e0[u].task_hash@ == h && e0[u].ssid == s;
                            assert(u < t);
                        }
                    }
                }
                assert(apre.len() == kept.len() + t);
                t = t + 1;
            }
        }
        proof {
            let k = spec_admit_count(kept.len() as int, e0.len() as int, self.max_tasks as int);
            assert(self.inner.active_tasks@.len() == kept.len() + t);
            assert(t == k) by {
                if kept.len() >= self.max_tasks {
                    assert(t == 0);
                } else if t == e0.len() {
                } else {
                    assert(kept.len() + t >= self.max_tasks);
                }
            }
        }

        // Garbage-collect the buffer against `now`.
        let ghost bmid = self.inner.enqueued_messages@;
        let mut buf_tmp: Vec<MessageQueueEntry> = Vec::new();
        core::mem::swap(&mut buf_tmp, &mut self.inner.enqueued_messages);
        let gced = buffer_gc(buf_tmp, now);
        self.inner.enqueued_messages = gced;
        proof {
            let k = spec_admit_count(kept.len() as int, e0.len() as int, self.max_tasks as int);
            assert forall|h: Seq<u8>, s: u8|
                #[trigger] buffer_lookup(self.inner.enqueued_messages@, h, s) == spec_gc_queue(
                if (exists|u: int| 0 <= u < k && e0[u].task_hash@ == h && e0[u].ssid == s) {
                    Seq::<SignedMessage>::empty()
                } else {
                    buffer_lookup(b0, h, s)
                },
                now as int,
            ) by {
                assert(buffer_lookup(self.inner.enqueued_messages@, h, s) == spec_gc_queue(
                    buffer_lookup(bmid, h, s),
                    now as int,
                ));
            }
            // Well-formedness of the new state.
            let fa = self.inner.active_tasks@;
            let started = spec_started_jobs(e0.take(t), now);
            assert forall|x: int, y: int|
                0 <= x < y < fa.len() implies fa[x].task_hash@ != fa[y].task_hash@ by {
                if y < kept.len() {
                } else if x < kept.len() {
                    let b = choose|b: int| 0 <= b < a0.len() && kept[x] == a0[b];
                    assert(fa[y] == spec_started(spec_stamped(e0.take(t)[y - kept.len()], now)));
                    assert(a0[b].task_hash@ != e0[y - kept.len()].task_hash@);
                } else {
                    assert(fa[x] == spec_started(spec_stamped(e0.take(t)[x - kept.len()], now)));
                    assert(fa[y] == spec_started(spec_stamped(e0.take(t)[y - kept.len()], now)));
                    assert(e0[x - kept.len()].task_hash@ != e0[y - kept.len()].task_hash@);
                }
            }
            assert forall|x: int, y: int|
                0 <= x < fa.len() && 0 <= y < self.inner.enqueued_tasks@.len() implies fa[x].task_hash@
                != self.inner.enqueued_tasks@[y].task_hash@ by {
                assert(self.inner.enqueued_tasks@[y] == e0[t + y]);
                if x < kept.len() {
                    let b = choose|b: int| 0 <= b < a0.len() && kept[x] == a0[b];
                    assert(a0[b].task_hash@ != e0[t + y].task_hash@);
                } else {
                    assert(fa[x] == spec_started(spec_stamped(e0.take(t)[x - kept.len()], now)));
                    assert(e0[x - kept.len()].task_hash@ != e0[t + y].task_hash@);
                }
            }
            assert forall|x: int| 0 <= x < fa.len() implies (#[trigger] fa[x]).started by {
                if x < kept.len() {
                    let b = choose|b: int| 0 <= b < a0.len() && kept[x] == a0[b];
                    assert(a0[b].started);
                } else {
                    assert(fa[x] == spec_started(spec_stamped(e0.take(t)[x - kept.len()], now)));
                }
            }
            assert forall|x: int|
                0 <= x < self.inner.enqueued_tasks@.len() implies !(
            #[trigger] self.inner.enqueued_tasks@[x]).started
                && !self.inner.enqueued_tasks@[x].done by {
                assert(self.inner.enqueued_tasks@[x] == e0[t + x]);
            }
        }
        cmds
    }
}

} // verus!
