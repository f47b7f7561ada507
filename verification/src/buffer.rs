//! The enqueued-message buffer: peer messages that arrived before any task
//! could take them, keyed by task hash and, within one task, by candidate
//! signing-set index.  Each inner queue keeps insertion order, so buffered
//! messages can later be handed over first-in-first-out.

use vstd::prelude::*;

use crate::job::SignedMessage;
use crate::types::TaskHash;
use crate::types::spec_block_id_acceptable;
use crate::types::associated_block_id_acceptable;
use crate::types::task_hash_eq;

verus! {

/// The ordered queue of buffered messages for one `(task, ssid)` pair.
#[derive(Debug)]
pub struct SsidQueue {
    pub ssid: u8,
    pub messages: Vec<SignedMessage>,
}

/// All buffered messages for one task hash.
#[derive(Debug)]
pub struct MessageQueueEntry {
    pub task_hash: TaskHash,
    pub queues: Vec<SsidQueue>,
}

/// The messages buffered under `ssid`, or the empty sequence.
pub open spec fn ssid_lookup(qs: Seq<SsidQueue>, ssid: u8) -> Seq<SignedMessage>
    decreases qs.len(),
{
    if qs.len() == 0 {
        Seq::empty()
    } else if qs[0].ssid == ssid {
        qs[0].messages@
    } else {
        ssid_lookup(qs.drop_first(), ssid)
    }
}

/// The messages buffered under `(hash, ssid)`, or the empty sequence.
pub open spec fn buffer_lookup(buf: Seq<MessageQueueEntry>, hash: Seq<u8>, ssid: u8) -> Seq<
    SignedMessage,
>
    decreases buf.len(),
{
    if buf.len() == 0 {
        Seq::empty()
    } else if buf[0].task_hash@ == hash {
        ssid_lookup(buf[0].queues@, ssid)
    } else {
        buffer_lookup(buf.drop_first(), hash, ssid)
    }
}

/// Well-formedness of one entry: at least one queue, distinct ssids, and no
/// empty queue.
pub open spec fn entry_wf(e: MessageQueueEntry) -> bool {
    &&& e.queues@.len() > 0
    &&& forall|i: int, j: int|
        0 <= i < j < e.queues@.len() ==> e.queues@[i].ssid != e.queues@[j].ssid
    &&& forall|i: int| 0 <= i < e.queues@.len() ==> #[trigger] e.queues@[i].messages@.len() > 0
}

/// Well-formedness of the whole buffer: distinct task hashes and well-formed
/// entries.  In particular no empty inner queue and no empty outer entry
/// survives any operation.
pub open spec fn buffer_wf(buf: Seq<MessageQueueEntry>) -> bool {
    &&& forall|i: int, j: int|
        0 <= i < j < buf.len() ==> buf[i].task_hash@ != buf[j].task_hash@
    &&& forall|i: int| 0 <= i < buf.len() ==> #[trigger] entry_wf(buf[i])
}

/// What garbage collection keeps of one queue at block `now`: exactly the
/// messages whose associated block is still acceptable, in order.
pub open spec fn spec_gc_queue(msgs: Seq<SignedMessage>, now: int) -> Seq<SignedMessage>
    decreases msgs.len(),
{
    if msgs.len() == 0 {
        Seq::empty()
    } else {
        let rest = spec_gc_queue(msgs.drop_first(), now);
        if spec_block_id_acceptable(now, msgs[0].associated_block_id as int) {
            seq![msgs[0]] + rest
        } else {
            rest
        }
    }
}

/// Every message garbage collection keeps is acceptable at `now` and was
/// buffered before, in the same relative order.
pub proof fn lemma_gc_queue_acceptable(msgs: Seq<SignedMessage>, now: int)
    ensures
        forall|k: int|
            0 <= k < spec_gc_queue(msgs, now).len() ==> spec_block_id_acceptable(
                now,
                #[trigger] spec_gc_queue(msgs, now)[k].associated_block_id as int,
            ),
        spec_gc_queue(msgs, now).len() <= msgs.len(),
    decreases msgs.len(),
{
    if msgs.len() > 0 {
        lemma_gc_queue_acceptable(msgs.drop_first(), now);
    }
}

/// Garbage collection is idempotent: collecting an already-collected queue
/// at the same block changes nothing.
pub proof fn lemma_gc_queue_idempotent(msgs: Seq<SignedMessage>, now: int)
    ensures
        spec_gc_queue(spec_gc_queue(msgs, now), now) == spec_gc_queue(msgs, now),
{
    lemma_gc_queue_acceptable(msgs, now);
    lemma_gc_queue_all_acceptable(spec_gc_queue(msgs, now), now);
}

/// A queue all of whose messages are acceptable at `now` survives garbage
/// collection unchanged.
pub proof fn lemma_gc_queue_all_acceptable(msgs: Seq<SignedMessage>, now: int)
    requires
        forall|k: int|
            0 <= k < msgs.len() ==> spec_block_id_acceptable(
                now,
                #[trigger] msgs[k].associated_block_id as int,
            ),
    ensures
        spec_gc_queue(msgs, now) == msgs,
    decreases msgs.len(),
{
    if msgs.len() > 0 {
        lemma_gc_queue_all_acceptable(msgs.drop_first(), now);
        assert(seq![msgs[0]] + msgs.drop_first() =~= msgs);
    }
}

/// Whether one of the first `n` entries carries `h`.
pub open spec fn hash_in_prefix(buf: Seq<MessageQueueEntry>, n: int, h: Seq<u8>) -> bool {
    exists|k: int| 0 <= k < n && buf[k].task_hash@ == h
}

/// Whether one of the first `n` queues carries `s`.
pub open spec fn ssid_in_prefix(qs: Seq<SsidQueue>, n: int, s: u8) -> bool {
    exists|k: int| 0 <= k < n && qs[k].ssid == s
}

/// Resolves `ssid_lookup` at a known index: when `qs[i]` is the first queue
/// carrying `ssid`, the lookup is its message sequence.
pub proof fn lemma_ssid_lookup_at(qs: Seq<SsidQueue>, i: int, ssid: u8)
    requires
        0 <= i < qs.len(),
        qs[i].ssid == ssid,
        forall|k: int| 0 <= k < i ==> qs[k].ssid != ssid,
    ensures
        ssid_lookup(qs, ssid) == qs[i].messages@,
    decreases i,
{
    if i > 0 {
        lemma_ssid_lookup_at(qs.drop_first(), i - 1, ssid);
    }
}

/// When no queue carries `ssid`, the lookup is empty.
pub proof fn lemma_ssid_lookup_absent(qs: Seq<SsidQueue>, ssid: u8)
    requires
        forall|k: int| 0 <= k < qs.len() ==> qs[k].ssid != ssid,
    ensures
        ssid_lookup(qs, ssid) == Seq::<SignedMessage>::empty(),
    decreases qs.len(),
{
    if qs.len() > 0 {
        lemma_ssid_lookup_absent(qs.drop_first(), ssid);
    }
}

/// Replacing queue `i` by one with the same ssid changes only that ssid's
/// lookup, provided no earlier queue shares the ssid.
pub proof fn lemma_ssid_lookup_update(qs: Seq<SsidQueue>, i: int, q2: SsidQueue, s: u8)
    requires
        0 <= i < qs.len(),
        q2.ssid == qs[i].ssid,
        forall|k: int| 0 <= k < i ==> qs[k].ssid != qs[i].ssid,
    ensures
        ssid_lookup(qs.update(i, q2), s) == if s == qs[i].ssid {
            q2.messages@
        } else {
            ssid_lookup(qs, s)
        },
    decreases i,
{
    let qs2 = qs.update(i, q2);
    if i == 0 {
        assert(qs2.drop_first() =~= qs.drop_first());
    } else {
        assert(qs2.drop_first() =~= qs.drop_first().update(i - 1, q2));
        lemma_ssid_lookup_update(qs.drop_first(), i - 1, q2, s);
    }
}

/// Appending a queue with a fresh ssid changes only that ssid's lookup.
pub proof fn lemma_ssid_lookup_push(qs: Seq<SsidQueue>, q: SsidQueue, s: u8)
    requires
        forall|k: int| 0 <= k < qs.len() ==> qs[k].ssid != q.ssid,
    ensures
        ssid_lookup(qs.push(q), s) == if s == q.ssid {
            q.messages@
        } else {
            ssid_lookup(qs, s)
        },
    decreases qs.len(),
{
    assert(qs.push(q).len() == qs.len() + 1);
    if qs.len() == 0 {
        assert(qs.push(q)[0] == q);
        assert(qs.push(q).drop_first() =~= qs);
    } else {
        assert(qs.push(q)[0] == qs[0]);
        assert(qs.push(q).drop_first() =~= qs.drop_first().push(q));
        lemma_ssid_lookup_push(qs.drop_first(), q, s);
    }
}

/// Removing queue `i` empties its ssid's lookup when that ssid occurs
/// nowhere else.
pub proof fn lemma_ssid_lookup_remove(qs: Seq<SsidQueue>, i: int, s: u8)
    requires
        0 <= i < qs.len(),
        forall|k: int| 0 <= k < qs.len() && k != i ==> qs[k].ssid != qs[i].ssid,
    ensures
        ssid_lookup(qs.remove(i), s) == if s == qs[i].ssid {
            Seq::<SignedMessage>::empty()
        } else {
            ssid_lookup(qs, s)
        },
    decreases i,
{
    let qs2 = qs.remove(i);
    if i == 0 {
        assert(qs2 =~= qs.drop_first());
        if s == qs[0].ssid {
            lemma_ssid_lookup_absent(qs.drop_first(), s);
        }
    } else {
        assert(qs2.drop_first() =~= qs.drop_first().remove(i - 1));
        lemma_ssid_lookup_remove(qs.drop_first(), i - 1, s);
    }
}

/// Resolves `buffer_lookup` at a known index: when `buf[i]` is the first
/// entry carrying `hash`, the lookup goes through its queues.
pub proof fn lemma_buffer_lookup_at(buf: Seq<MessageQueueEntry>, i: int, hash: Seq<u8>, s: u8)
    requires
        0 <= i < buf.len(),
        buf[i].task_hash@ == hash,
        forall|k: int| 0 <= k < i ==> buf[k].task_hash@ != hash,
    ensures
        buffer_lookup(buf, hash, s) == ssid_lookup(buf[i].queues@, s),
    decreases i,
{
    if i > 0 {
        lemma_buffer_lookup_at(buf.drop_first(), i - 1, hash, s);
    }
}

/// When no entry carries `hash`, the lookup is empty.
pub proof fn lemma_buffer_lookup_absent(buf: Seq<MessageQueueEntry>, hash: Seq<u8>, s: u8)
    requires
        forall|k: int| 0 <= k < buf.len() ==> buf[k].task_hash@ != hash,
    ensures
        buffer_lookup(buf, hash, s) == Seq::<SignedMessage>::empty(),
    decreases buf.len(),
{
    if buf.len() > 0 {
        lemma_buffer_lookup_absent(buf.drop_first(), hash, s);
    }
}

/// Replacing entry `i` by one with the same hash changes only that hash's
/// lookups, provided no earlier entry shares the hash.
pub proof fn lemma_buffer_lookup_update(
    buf: Seq<MessageQueueEntry>,
    i: int,
    e2: MessageQueueEntry,
    h: Seq<u8>,
    s: u8,
)
    requires
        0 <= i < buf.len(),
        e2.task_hash@ == buf[i].task_hash@,
        forall|k: int| 0 <= k < i ==> buf[k].task_hash@ != buf[i].task_hash@,
    ensures
        buffer_lookup(buf.update(i, e2), h, s) == if h == buf[i].task_hash@ {
            ssid_lookup(e2.queues@, s)
        } else {
            buffer_lookup(buf, h, s)
        },
    decreases i,
{
    let buf2 = buf.update(i, e2);
    if i == 0 {
        assert(buf2.drop_first() =~= buf.drop_first());
    } else {
        assert(buf2.drop_first() =~= buf.drop_first().update(i - 1, e2));
        lemma_buffer_lookup_update(buf.drop_first(), i - 1, e2, h, s);
    }
}

/// Appending an entry with a fresh hash changes only that hash's lookups.
pub proof fn lemma_buffer_lookup_push(
    buf: Seq<MessageQueueEntry>,
    e: MessageQueueEntry,
    h: Seq<u8>,
    s: u8,
)
    requires
        forall|k: int| 0 <= k < buf.len() ==> buf[k].task_hash@ != e.task_hash@,
    ensures
        buffer_lookup(buf.push(e), h, s) == if h == e.task_hash@ {
            ssid_lookup(e.queues@, s)
        } else {
            buffer_lookup(buf, h, s)
        },
    decreases buf.len(),
{
    assert(buf.push(e).len() == buf.len() + 1);
    if buf.len() == 0 {
        assert(buf.push(e)[0] == e);
        assert(buf.push(e).drop_first() =~= buf);
    } else {
        assert(buf.push(e)[0] == buf[0]);
        assert(buf.push(e).drop_first() =~= buf.drop_first().push(e));
        lemma_buffer_lookup_push(buf.drop_first(), e, h, s);
    }
}

/// Removing entry `i` empties its hash's lookups when that hash occurs
/// nowhere else.
pub proof fn lemma_buffer_lookup_remove(buf: Seq<MessageQueueEntry>, i: int, h: Seq<u8>, s: u8)
    requires
        0 <= i < buf.len(),
        forall|k: int|
            0 <= k < buf.len() && k != i ==> buf[k].task_hash@ != buf[i].task_hash@,
    ensures
        buffer_lookup(buf.remove(i), h, s) == if h == buf[i].task_hash@ {
            Seq::<SignedMessage>::empty()
        } else {
            buffer_lookup(buf, h, s)
        },
    decreases i,
{
    let buf2 = buf.remove(i);
    if i == 0 {
        assert(buf2 =~= buf.drop_first());
        if h == buf[0].task_hash@ {
            lemma_buffer_lookup_absent(buf.drop_first(), h, s);
        }
    } else {
        assert(buf2.drop_first() =~= buf.drop_first().remove(i - 1));
        lemma_buffer_lookup_remove(buf.drop_first(), i - 1, h, s);
    }
}

/// Index of the entry for `hash`, if any.
fn find_entry(buf: &Vec<MessageQueueEntry>, hash: &TaskHash) -> (r: Option<usize>)
    ensures
        match r {
            Some(i) => {
                &&& 0 <= i < buf@.len()
                &&& buf@[i as int].task_hash@ == hash@
                &&& forall|k: int| 0 <= k < i ==> buf@[k].task_hash@ != hash@
            },
            None => forall|k: int| 0 <= k < buf@.len() ==> buf@[k].task_hash@ != hash@,
        },
{
    let mut i: usize = 0;
    while i < buf.len()
        invariant
            0 <= i <= buf@.len(),
            forall|k: int| 0 <= k < i ==> buf@[k].task_hash@ != hash@,
        decreases buf@.len() - i,
    {
        if task_hash_eq(&buf[i].task_hash, hash) {
            return Some(i);
        }
        i += 1;
    }
    None
}

/// Index of the queue for `ssid`, if any.
fn find_queue(qs: &Vec<SsidQueue>, ssid: u8) -> (r: Option<usize>)
    ensures
        match r {
            Some(i) => {
                &&& 0 <= i < qs@.len()
                &&& qs@[i as int].ssid == ssid
                &&& forall|k: int| 0 <= k < i ==> qs@[k].ssid != ssid
            },
            None => forall|k: int| 0 <= k < qs@.len() ==> qs@[k].ssid != ssid,
        },
{
    let mut i: usize = 0;
    while i < qs.len()
        invariant
            0 <= i <= qs@.len(),
            forall|k: int| 0 <= k < i ==> qs@[k].ssid != ssid,
        decreases qs@.len() - i,
    {
        if qs[i].ssid == ssid {
            return Some(i);
        }
        i += 1;
    }
    None
}

/// Parks `msg` at the back of the queue for `(hash, msg.ssid)`, creating the
/// entry and the queue as needed.  Every other queue is untouched.
pub fn buffer_push(buf: &mut Vec<MessageQueueEntry>, hash: &TaskHash, msg: SignedMessage)
    requires
        buffer_wf(old(buf)@),
    ensures
        buffer_wf(final(buf)@),
        buffer_lookup(final(buf)@, hash@, msg.ssid) == buffer_lookup(old(buf)@, hash@, msg.ssid).push(
            msg,
        ),
        forall|h: Seq<u8>, s: u8|
            !(h == hash@ && s == msg.ssid) ==> buffer_lookup(final(buf)@, h, s) == buffer_lookup(
                old(buf)@,
                h,
                s,
            ),
{
    let ghost buf0 = buf@;
    let ssid = msg.ssid;
    match find_entry(buf, hash) {
        Some(i) => {
            let ghost e0 = buf@[i as int];
            proof {
                assert(entry_wf(e0));
            }
            let entry = &mut buf[i];
            let ghost qs0 = entry.queues@;
            match find_queue(&entry.queues, ssid) {
                Some(j) => {
                    let ghost q0 = entry.queues@[j as int];
                    entry.queues[j].messages.push(msg);
                    proof {
                        let q2 = entry.queues@[j as int];
                        assert(entry.queues@ =~= qs0.update(j as int, q2));
                        assert forall|s2: u8|
                            ssid_lookup(entry.queues@, s2) == if s2 == ssid {
                                q0.messages@.push(msg)
                            } else {
                                ssid_lookup(qs0, s2)
                            } by {
                            lemma_ssid_lookup_update(qs0, j as int, q2, s2);
                        }
                        lemma_ssid_lookup_at(qs0, j as int, ssid);
                        assert forall|a: int| 0 <= a < entry.queues@.len() implies (
                        #[trigger] entry.queues@[a]).ssid == qs0[a].ssid
                            && entry.queues@[a].messages@.len() > 0 by {
                            if a != j as int {
                                assert(entry.queues@[a] == qs0[a]);
                            }
                            assert(qs0[a].messages@.len() > 0);
                        }
                    }
                },
                None => {
                    let mut messages: Vec<SignedMessage> = Vec::new();
                    messages.push(msg);
                    entry.queues.push(SsidQueue { ssid, messages });
                    proof {
                        let q2 = entry.queues@.last();
                        assert(entry.queues@ =~= qs0.push(q2));
                        assert forall|s2: u8|
                            ssid_lookup(entry.queues@, s2) == if s2 == ssid {
                                seq![msg]
                            } else {
                                ssid_lookup(qs0, s2)
                            } by {
                            lemma_ssid_lookup_push(qs0, q2, s2);
                        }
                        lemma_ssid_lookup_absent(qs0, ssid);
                        assert(seq![msg] =~= Seq::<SignedMessage>::empty().push(msg));
                        assert forall|a: int| 0 <= a < entry.queues@.len() implies (
                        #[trigger] entry.queues@[a]).messages@.len() > 0 by {
                            if a < qs0.len() {
                                assert(entry.queues@[a] == qs0[a]);
                                assert(qs0[a].messages@.len() > 0);
                            }
                        }
                        assert forall|a: int, b: int|
                            0 <= a < b < entry.queues@.len() implies entry.queues@[a].ssid
                            != entry.queues@[b].ssid by {
                            if b < qs0.len() {
                                assert(entry.queues@[a] == qs0[a]);
                                assert(entry.queues@[b] == qs0[b]);
                            } else {
                                assert(entry.queues@[a] == qs0[a]);
                                assert(entry.queues@[b] == q2);
                            }
                        }
                    }
                },
            }
            proof {
                let e2 = buf@[i as int];
                assert(e2.task_hash@ == e0.task_hash@);
                assert(entry_wf(e2));
                assert(buf@ =~= buf0.update(i as int, e2));
                assert forall|k: int| 0 <= k < buf@.len() implies #[trigger] entry_wf(buf@[k])
                    && buf@[k].task_hash@ == buf0[k].task_hash@ by {
                    if k != i as int {
                        assert(buf@[k] == buf0[k]);
                        assert(entry_wf(buf0[k]));
                    }
                }
                assert forall|h: Seq<u8>, s: u8|
                    #[trigger] buffer_lookup(buf@, h, s) == if h == hash@ {
                        ssid_lookup(e2.queues@, s)
                    } else {
                        buffer_lookup(buf0, h, s)
                    } by {
                    lemma_buffer_lookup_update(buf0, i as int, e2, h, s);
                }
                assert forall|h: Seq<u8>, s: u8| h == hash@ implies #[trigger] buffer_lookup(
                    buf0,
                    h,
                    s,
                ) == ssid_lookup(e0.queues@, s) by {
                    lemma_buffer_lookup_at(buf0, i as int, h, s);
                }
            }
        },
        None => {
            let mut messages: Vec<SignedMessage> = Vec::new();
            messages.push(msg);
            let mut queues: Vec<SsidQueue> = Vec::new();
            queues.push(SsidQueue { ssid, messages });
            let mut task_hash: TaskHash = [0u8; 32];
            let mut b: usize = 0;
            while b < 32
                invariant
                    0 <= b <= 32,
                    forall|k: int| 0 <= k < b ==> task_hash@[k] == hash@[k],
                decreases 32 - b,
            {
                task_hash[b] = hash[b];
                b += 1;
            }
            assert(task_hash@ =~= hash@);
            let entry = MessageQueueEntry { task_hash, queues };
            buf.push(entry);
            proof {
                let e = buf@.last();
                assert(buf@ =~= buf0.push(e));
                assert forall|h: Seq<u8>, s: u8|
                    #[trigger] buffer_lookup(buf@, h, s) == if h == hash@ {
                        ssid_lookup(e.queues@, s)
                    } else {
                        buffer_lookup(buf0, h, s)
                    } by {
                    lemma_buffer_lookup_push(buf0, e, h, s);
                }
                assert forall|h: Seq<u8>, s: u8| h == hash@ implies #[trigger] buffer_lookup(
                    buf0,
                    h,
                    s,
                ) == Seq::<SignedMessage>::empty() by {
                    lemma_buffer_lookup_absent(buf0, h, s);
                }
                assert forall|s: u8|
                    ssid_lookup(e.queues@, s) == if s == ssid {
                        seq![msg]
                    } else {
                        Seq::<SignedMessage>::empty()
                    } by {
                    if s != ssid {
                        lemma_ssid_lookup_absent(e.queues@, s);
                    }
                }
                assert(seq![msg] =~= Seq::<SignedMessage>::empty().push(msg));
                assert(entry_wf(e));
                assert forall|k: int| 0 <= k < buf@.len() implies #[trigger] entry_wf(buf@[k]) by {
                    if k < buf0.len() {
                        assert(buf@[k] == buf0[k]);
                        assert(entry_wf(buf0[k]));
                    }
                }
                assert forall|a: int, b: int|
                    0 <= a < b < buf@.len() implies buf@[a].task_hash@ != buf@[b].task_hash@ by {
                    assert(buf@[a] == buf0[a]);
                    if b < buf0.len() {
                        assert(buf@[b] == buf0[b]);
                    } else {
                        assert(buf@[b] == e);
                    }
                }
            }
        },
    }
}

/// Removes and returns the whole queue for `(hash, ssid)`, dropping the
/// entry when it was the last queue.  Every other queue is untouched.
pub fn buffer_drain(buf: &mut Vec<MessageQueueEntry>, hash: &TaskHash, ssid: u8) -> (drained: Vec<
    SignedMessage,
>)
    requires
        buffer_wf(old(buf)@),
    ensures
        buffer_wf(final(buf)@),
        drained@ == buffer_lookup(old(buf)@, hash@, ssid),
        buffer_lookup(final(buf)@, hash@, ssid) == Seq::<SignedMessage>::empty(),
        forall|h: Seq<u8>, s: u8|
            !(h == hash@ && s == ssid) ==> buffer_lookup(final(buf)@, h, s) == buffer_lookup(
                old(buf)@,
                h,
                s,
            ),
{
    let ghost buf0 = buf@;
    match find_entry(buf, hash) {
        Some(i) => {
            let ghost e0 = buf@[i as int];
            proof {
                assert(entry_wf(e0));
                assert forall|s: u8| #[trigger] buffer_lookup(buf0, hash@, s) == ssid_lookup(
                    e0.queues@,
                    s,
                ) by {
                    lemma_buffer_lookup_at(buf0, i as int, hash@, s);
                }
                assert forall|k: int|
                    0 <= k < buf0.len() && k != i as int implies buf0[k].task_hash@ != buf0[i
                    as int].task_hash@ by {
                    if k < i as int {
                        assert(buf0[k].task_hash@ != buf0[i as int].task_hash@);
                    } else {
                        assert(buf0[i as int].task_hash@ != buf0[k].task_hash@);
                    }
                }
            }
            let ghost qs0 = e0.queues@;
            match find_queue(&buf[i].queues, ssid) {
                Some(j) => {
                    proof {
                        assert forall|k: int|
                            0 <= k < qs0.len() && k != j as int implies qs0[k].ssid != qs0[j
                            as int].ssid by {
                            if k < j as int {
                                assert(qs0[k].ssid != qs0[j as int].ssid);
                            } else {
                                assert(qs0[j as int].ssid != qs0[k].ssid);
                            }
                        }
                    }
                    let q = buf[i].queues.remove(j);
                    proof {
                        let e_mid = buf@[i as int];
                        assert(e_mid.queues@ =~= qs0.remove(j as int));
                        assert forall|s2: u8|
                            ssid_lookup(e_mid.queues@, s2) == if s2 == ssid {
                                Seq::<SignedMessage>::empty()
                            } else {
                                ssid_lookup(qs0, s2)
                            } by {
                            lemma_ssid_lookup_remove(qs0, j as int, s2);
                        }
                        lemma_ssid_lookup_at(qs0, j as int, ssid);
                        assert forall|a: int| 0 <= a < e_mid.queues@.len() implies (
                        #[trigger] e_mid.queues@[a]).messages@.len() > 0 && (exists|b: int|
                            0 <= b < qs0.len() && e_mid.queues@[a] == qs0[b]) by {
                            if a < j as int {
                                assert(e_mid.queues@[a] == qs0[a]);
                                assert(qs0[a].messages@.len() > 0);
                            } else {
                                assert(e_mid.queues@[a] == qs0[a + 1]);
                                assert(qs0[a + 1].messages@.len() > 0);
                            }
                        }
                        assert forall|a: int, b: int|
                            0 <= a < b < e_mid.queues@.len() implies e_mid.queues@[a].ssid
                            != e_mid.queues@[b].ssid by {
                            if b < j as int {
                            } else if a < j as int {
                                assert(e_mid.queues@[a] == qs0[a]);
                                assert(e_mid.queues@[b] == qs0[b + 1]);
                            } else {
                                assert(e_mid.queues@[a] == qs0[a + 1]);
                                assert(e_mid.queues@[b] == qs0[b + 1]);
                            }
                        }
                    }
                    if buf[i].queues.is_empty() {
                        let ghost buf_mid = buf@;
                        let _ = buf.remove(i);
                        proof {
                            assert(qs0.len() == 1);
                            assert forall|s: u8| s != ssid implies ssid_lookup(qs0, s) == Seq::<
                                SignedMessage,
                            >::empty() by {
                                lemma_ssid_lookup_absent(qs0, s);
                            }
                            assert(buf_mid =~= buf0.update(i as int, buf_mid[i as int]));
                            assert forall|h: Seq<u8>, s: u8|
                                #[trigger] buffer_lookup(buf@, h, s) == if h == hash@ {
                                    Seq::<SignedMessage>::empty()
                                } else {
                                    buffer_lookup(buf0, h, s)
                                } by {
                                lemma_buffer_lookup_remove(buf_mid, i as int, h, s);
                                lemma_buffer_lookup_update(buf0, i as int, buf_mid[i as int], h, s);
                            }
                            assert forall|k: int| 0 <= k < buf@.len() implies #[trigger] entry_wf(
                                buf@[k],
                            ) && (exists|b: int| 0 <= b < buf0.len() && buf@[k] == buf0[b]) by {
                                if k < i as int {
                                    assert(buf@[k] == buf0[k]);
                                    assert(entry_wf(buf0[k]));
                                } else {
                                    assert(buf@[k] == buf0[k + 1]);
                                    assert(entry_wf(buf0[k + 1]));
                                }
                            }
                            assert forall|a: int, b: int|
                                0 <= a < b < buf@.len() implies buf@[a].task_hash@ != buf@[b].task_hash@ by {
                                if b < i as int {
                                } else if a < i as int {
                                    assert(buf@[a] == buf0[a]);
                                    assert(buf@[b] == buf0[b + 1]);
                                } else {
                                    assert(buf@[a] == buf0[a + 1]);
                                    assert(buf@[b] == buf0[b + 1]);
                                }
                            }
                        }
                    } else {
                        proof {
                            let e2 = buf@[i as int];
                            assert(e2.task_hash@ == e0.task_hash@);
                            assert(entry_wf(e2));
                            assert(buf@ =~= buf0.update(i as int, e2));
                            assert forall|h: Seq<u8>, s: u8|
                                #[trigger] buffer_lookup(buf@, h, s) == if h == hash@ {
                                    ssid_lookup(e2.queues@, s)
                                } else {
                                    buffer_lookup(buf0, h, s)
                                } by {
                                lemma_buffer_lookup_update(buf0, i as int, e2, h, s);
                            }
                            assert forall|k: int| 0 <= k < buf@.len() implies #[trigger] entry_wf(
                                buf@[k],
                            ) && buf@[k].task_hash@ == buf0[k].task_hash@ by {
                                if k != i as int {
                                    assert(buf@[k] == buf0[k]);
                                    assert(entry_wf(buf0[k]));
                                }
                            }
                        }
                    }
                    q.messages
                },
                None => {
                    proof {
                        lemma_ssid_lookup_absent(qs0, ssid);
                    }
                    Vec::new()
                },
            }
        },
        None => {
            proof {
                assert forall|s: u8| #[trigger] buffer_lookup(buf0, hash@, s) == Seq::<
                    SignedMessage,
                >::empty() by {
                    lemma_buffer_lookup_absent(buf0, hash@, s);
                }
            }
            Vec::new()
        },
    }
}

/// Keeps of one message queue exactly the messages still acceptable at
/// block `now`, in order.
fn gc_messages(msgs: Vec<SignedMessage>, now: u64) -> (r: Vec<SignedMessage>)
    ensures
        r@ == spec_gc_queue(msgs@, now as int),
{
    let ghost m0 = msgs@;
    let mut kept: Vec<SignedMessage> = Vec::new();
    let mut rest = msgs;
    proof {
        assert(kept@ + spec_gc_queue(rest@, now as int) =~= spec_gc_queue(m0, now as int));
    }
    while rest.len() > 0
        invariant
            kept@ + spec_gc_queue(rest@, now as int) == spec_gc_queue(m0, now as int),
        decreases rest.len(),
    {
        let ghost rest0 = rest@;
        let ghost kept0 = kept@;
        let m = rest.remove(0);
        proof {
            assert(rest@ =~= rest0.drop_first());
        }
        if associated_block_id_acceptable(now, m.associated_block_id) {
            kept.push(m);
            proof {
                assert(spec_gc_queue(rest0, now as int) == seq![m] + spec_gc_queue(
                    rest@,
                    now as int,
                ));
                assert(kept@ + spec_gc_queue(rest@, now as int) =~= kept0 + spec_gc_queue(
                    rest0,
                    now as int,
                ));
            }
        } else {
            proof {
                assert(spec_gc_queue(rest0, now as int) == spec_gc_queue(rest@, now as int));
            }
        }
    }
    proof {
        assert(spec_gc_queue(rest@, now as int) == Seq::<SignedMessage>::empty());
        assert(kept@ =~= kept@ + spec_gc_queue(rest@, now as int));
    }
    kept
}

/// Keeps of one entry's queues what garbage collection leaves: each queue
/// filtered to its acceptable messages, emptied queues dropped.
fn gc_queues(queues: Vec<SsidQueue>, now: u64) -> (r: Vec<SsidQueue>)
    requires
        forall|i: int, j: int|
            0 <= i < j < queues@.len() ==> queues@[i].ssid != queues@[j].ssid,
    ensures
        forall|i: int, j: int| 0 <= i < j < r@.len() ==> r@[i].ssid != r@[j].ssid,
        forall|i: int| 0 <= i < r@.len() ==> #[trigger] r@[i].messages@.len() > 0,
        forall|i: int|
            0 <= i < r@.len() ==> ssid_in_prefix(queues@, queues@.len() as int, #[trigger] r@[i].ssid),
        forall|s: u8|
            #[trigger] ssid_lookup(r@, s) == spec_gc_queue(ssid_lookup(queues@, s), now as int),
{
    let ghost qs0 = queues@;
    let mut out: Vec<SsidQueue> = Vec::new();
    let mut rest = queues;
    let ghost mut i: int = 0;
    while rest.len() > 0
        invariant
            0 <= i <= qs0.len(),
            rest@ == qs0.skip(i),
            forall|a: int, b: int| 0 <= a < b < qs0.len() ==> qs0[a].ssid != qs0[b].ssid,
            forall|a: int, b: int| 0 <= a < b < out@.len() ==> out@[a].ssid != out@[b].ssid,
            forall|a: int| 0 <= a < out@.len() ==> #[trigger] out@[a].messages@.len() > 0,
            forall|a: int| 0 <= a < out@.len() ==> ssid_in_prefix(qs0, i, #[trigger] out@[a].ssid),
            forall|s: u8|
                ssid_in_prefix(qs0, i, s) || #[trigger] ssid_lookup(out@, s) == Seq::<
                    SignedMessage,
                >::empty(),
            forall|a: int|
                0 <= a < i ==> #[trigger] ssid_lookup(out@, qs0[a].ssid) == spec_gc_queue(
                    qs0[a].messages@,
                    now as int,
                ),
        decreases rest.len(),
    {
        let ghost rest0 = rest@;
        let ghost out0 = out@;
        let q = rest.remove(0);
        proof {
            assert(rest@ =~= rest0.drop_first());
            assert(q == qs0[i]);
            assert(rest@ =~= qs0.skip(i + 1));
        }
        let ghost q_ssid = q.ssid;
        let kept = gc_messages(q.messages, now);
        if kept.len() > 0 {
            let fresh = SsidQueue { ssid: q.ssid, messages: kept };
            proof {
                assert forall|a: int| 0 <= a < out0.len() implies out0[a].ssid != q_ssid by {
                    assert(ssid_in_prefix(qs0, i, out0[a].ssid));
                }
            }
            out.push(fresh);
            proof {
                assert forall|s: u8|
                    ssid_lookup(out@, s) == if s == q_ssid {
                        fresh.messages@
                    } else {
                        ssid_lookup(out0, s)
                    } by {
                    lemma_ssid_lookup_push(out0, fresh, s);
                }
            }
        }
        proof {
            i = i + 1;
        }
    }
    proof {
        assert(rest@.len() == 0);
        assert(i == qs0.len());
        assert forall|s: u8|
            #[trigger] ssid_lookup(out@, s) == spec_gc_queue(ssid_lookup(qs0, s), now as int) by {
            if ssid_in_prefix(qs0, qs0.len() as int, s) {
                let a = choose|a: int| 0 <= a < qs0.len() && qs0[a].ssid == s;
                assert forall|k: int| 0 <= k < a implies qs0[k].ssid != s by {}
                lemma_ssid_lookup_at(qs0, a, s);
                assert(ssid_lookup(out@, qs0[a].ssid) == spec_gc_queue(qs0[a].messages@, now as int));
            } else {
                lemma_ssid_lookup_absent(qs0, s);
                assert(ssid_lookup(out@, s) == Seq::<SignedMessage>::empty());
            }
        }
    }
    out
}

/// Garbage-collects the whole buffer at block `now`: drops every message
/// whose associated block is no longer acceptable, then every emptied inner
/// queue and every emptied outer entry.
pub fn buffer_gc(buf: Vec<MessageQueueEntry>, now: u64) -> (r: Vec<MessageQueueEntry>)
    requires
        buffer_wf(buf@),
    ensures
        buffer_wf(r@),
        forall|h: Seq<u8>, s: u8|
            #[trigger] buffer_lookup(r@, h, s) == spec_gc_queue(
                buffer_lookup(buf@, h, s),
                now as int,
            ),
{
    let ghost b0 = buf@;
    let mut out: Vec<MessageQueueEntry> = Vec::new();
    let mut rest = buf;
    let ghost mut i: int = 0;
    while rest.len() > 0
        invariant
            0 <= i <= b0.len(),
            rest@ == b0.skip(i),
            buffer_wf(b0),
            buffer_wf(out@),
            forall|a: int|
                0 <= a < out@.len() ==> hash_in_prefix(b0, i, #[trigger] out@[a].task_hash@),
            forall|h: Seq<u8>, s: u8|
                hash_in_prefix(b0, i, h) || #[trigger] buffer_lookup(out@, h, s) == Seq::<
                    SignedMessage,
                >::empty(),
            forall|a: int, s: u8|
                0 <= a < i ==> #[trigger] buffer_lookup(out@, b0[a].task_hash@, s) == spec_gc_queue(
                    ssid_lookup(b0[a].queues@, s),
                    now as int,
                ),
        decreases rest.len(),
    {
        let ghost rest0 = rest@;
        let ghost out0 = out@;
        let e = rest.remove(0);
        proof {
            assert(rest@ =~= rest0.drop_first());
            assert(e == b0[i]);
            assert(rest@ =~= b0.skip(i + 1));
            assert(entry_wf(b0[i]));
        }
        let ghost e_hash = e.task_hash@;
        let task_hash = e.task_hash;
        let kept = gc_queues(e.queues, now);
        if kept.len() > 0 {
            let fresh = MessageQueueEntry { task_hash, queues: kept };
            proof {
                assert forall|a: int| 0 <= a < out0.len() implies out0[a].task_hash@ != e_hash by {
                    assert(hash_in_prefix(b0, i, out0[a].task_hash@));
                }
                assert(entry_wf(fresh));
            }
            out.push(fresh);
            proof {
                assert forall|h: Seq<u8>, s: u8|
                    buffer_lookup(out@, h, s) == if h == e_hash {
                        ssid_lookup(fresh.queues@, s)
                    } else {
                        buffer_lookup(out0, h, s)
                    } by {
                    lemma_buffer_lookup_push(out0, fresh, h, s);
                }
            }
        } else {
            proof {
                assert forall|s: u8|
                    spec_gc_queue(ssid_lookup(b0[i].queues@, s), now as int) == Seq::<
                        SignedMessage,
                    >::empty() by {
                    assert(ssid_lookup(kept@, s) == spec_gc_queue(
                        ssid_lookup(b0[i].queues@, s),
                        now as int,
                    ));
                }
            }
        }
        proof {
            i = i + 1;
        }
    }
    proof {
        assert(i == b0.len());
        assert forall|h: Seq<u8>, s: u8|
            #[trigger] buffer_lookup(out@, h, s) == spec_gc_queue(
                buffer_lookup(b0, h, s),
                now as int,
            ) by {
            if hash_in_prefix(b0, b0.len() as int, h) {
                let a = choose|a: int| 0 <= a < b0.len() && b0[a].task_hash@ == h;
                lemma_buffer_lookup_at(b0, a, h, s);
                assert(buffer_lookup(out@, b0[a].task_hash@, s) == spec_gc_queue(
                    ssid_lookup(b0[a].queues@, s),
                    now as int,
                ));
            } else {
                lemma_buffer_lookup_absent(b0, h, s);
                assert(buffer_lookup(out@, h, s) == Seq::<SignedMessage>::empty());
            }
        }
    }
    out
}

} // verus!
