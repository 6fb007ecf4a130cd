use vstd::prelude::*;

use crate::clock::{now_rfc3339, timestamp_wf};
use crate::codec::{
    dec_int, encode_fits, encode_record, is_pad, push_bytes, spec_decode, spec_encode, AtomicLog,
    i32_to_decimal,
};
use crate::errors::StoreError;
use crate::tail::{
    concat_all, lemma_concat_chunk, lemma_concat_len, lemma_concat_push, lemma_tail_aligned,
    spec_tail, tail_bytes,
};

verus! {

// ---------------------------------------------------------------------------
// Entities
// ---------------------------------------------------------------------------

/// One counter: the current value, the fixed floor, and the fixed byte
/// width of every record in its log.
pub struct DbAtomic {
    pub value: i32,
    pub min_value: i32,
    pub log_size: usize,
}

impl DbAtomic {
    /// A fresh counter starting at zero.
    pub fn new(min_value: i32, log_size: usize) -> (r: DbAtomic)
        ensures
            r.value == 0,
            r.min_value == min_value,
            r.log_size == log_size,
    {
        DbAtomic { value: 0, min_value, log_size }
    }
}

/// A create request: the new counter's id, floor and record width.
pub struct CreateAtomicPayload {
    pub id: i32,
    pub min_value: i32,
    pub log_size: usize,
}

/// A committed mutation as the ghost history records it.
pub ghost struct Rec {
    pub tx_id: int,
    pub atomic_id: int,
    pub delta: int,
    pub updated: int,
    pub datetime: Seq<u8>,
    pub payload: Seq<u8>,
}

/// The encoding of a history record at width `width`.
pub open spec fn enc_of(r: Rec, width: nat) -> Seq<u8> {
    spec_encode(r.tx_id, r.delta, r.updated, r.datetime, r.payload, width)
}

/// Whether a history record's content fits its counter's record width.
pub open spec fn rec_fits(r: Rec, width: nat) -> bool {
    encode_fits(r.tx_id, r.delta, r.updated, r.datetime, r.payload, width)
}

/// The log image of a record sequence: all encodings joined in order.
pub open spec fn encode_log(rs: Seq<Rec>, width: nat) -> Seq<u8> {
    concat_all(rs.map_values(|r: Rec| enc_of(r, width)))
}

/// One queued disk write: the encoded line, the counter it belongs to, and
/// the value the mutation produced (for the snapshot file).
pub struct FsMessage {
    pub bytes: Vec<u8>,
    pub atomic_id: i32,
    pub updated_value: i32,
    pub rec: Ghost<Rec>,
}

/// A counter together with its durable images: the log bytes written so far
/// and the snapshot text of the last durably written value.
pub struct CounterEntry {
    pub id: i32,
    pub atomic: DbAtomic,
    pub log: Vec<u8>,
    pub snap: Vec<u8>,
    pub logged: Ghost<Seq<Rec>>,
}

/// The store: the counters, the next transaction id, the ordered queue of
/// pending disk writes, and the ghost history of every committed mutation
/// in commit order.
pub struct CounterStore {
    pub counters: Vec<CounterEntry>,
    pub next_tx_id: u64,
    pub queue: Vec<FsMessage>,
    pub history: Ghost<Seq<Rec>>,
}

// ---------------------------------------------------------------------------
// Well-formedness
// ---------------------------------------------------------------------------

/// A record that may stand in `e`'s log: addressed to `e`, fitting `e`'s
/// record width.
pub open spec fn rec_ok(r: Rec, e: CounterEntry) -> bool {
    &&& r.atomic_id == e.id as int
    &&& rec_fits(r, e.atomic.log_size as nat)
}

/// A counter entry's own invariant: the value respects the floor once it
/// has moved off zero, the log image is exactly the joined encodings of the
/// records logged so far, and the snapshot text is the decimal of the last
/// durably written value.
pub open spec fn entry_wf(e: CounterEntry) -> bool {
    &&& e.atomic.value == 0 || e.atomic.value >= e.atomic.min_value
    &&& e.log@ == encode_log(e.logged@, e.atomic.log_size as nat)
    &&& forall|k: int| 0 <= k < e.logged@.len() ==> rec_ok(#[trigger] e.logged@[k], e)
    &&& e.snap@ == if e.logged@.len() == 0 {
        Seq::<u8>::empty()
    } else {
        dec_int(e.logged@.last().updated)
    }
}

impl CounterStore {
    /// Whether a counter with this id exists.
    pub open spec fn spec_has(self, id: int) -> bool {
        exists|k: int|
            0 <= k < self.counters@.len() && (#[trigger] self.counters@[k]).id == id
    }

    /// The position of the counter with this id.
    pub open spec fn idx_of(self, id: int) -> int {
        choose|k: int|
            0 <= k < self.counters@.len() && (#[trigger] self.counters@[k]).id == id
    }

    /// The entry of the counter with this id.
    pub open spec fn entry_of(self, id: int) -> CounterEntry {
        self.counters@[self.idx_of(id)]
    }

    /// Counter ids are unique.
    pub open spec fn ids_unique(self) -> bool {
        forall|i: int, j: int|
            0 <= i < j < self.counters@.len() ==> (#[trigger] self.counters@[i]).id != (
            #[trigger] self.counters@[j]).id
    }

    /// A queued message is internally consistent: its counter exists, its
    /// ghost record matches its fields, and its bytes are that record's
    /// encoding at the counter's record width.
    pub open spec fn msg_wf(self, m: FsMessage) -> bool {
        &&& self.spec_has(m.atomic_id as int)
        &&& m.rec@.atomic_id == m.atomic_id as int
        &&& m.rec@.updated == m.updated_value as int
        &&& rec_fits(m.rec@, self.entry_of(m.atomic_id as int).atomic.log_size as nat)
        &&& m.bytes@ == enc_of(m.rec@, self.entry_of(m.atomic_id as int).atomic.log_size as nat)
    }

    /// The store invariant. Counter ids are unique and no counter is ever
    /// removed; every entry satisfies its own invariant; the next
    /// transaction id equals the number of commits, and the k-th commit
    /// carries transaction id k (so ids are unique and strictly
    /// increasing); and the queue is exactly the not-yet-drained suffix of
    /// the history, in commit order, each message consistent.
    pub open spec fn wf(self) -> bool {
        &&& self.ids_unique()
        &&& forall|i: int|
            0 <= i < self.counters@.len() ==> entry_wf(#[trigger] self.counters@[i])
        &&& self.next_tx_id as int == self.history@.len()
        &&& forall|k: int| 0 <= k < self.history@.len() ==> (#[trigger] self.history@[k]).tx_id == k
        &&& self.queue@.len() <= self.history@.len()
        &&& forall|k: int|
            0 <= k < self.queue@.len() ==> self.msg_wf(#[trigger] self.queue@[k])
                && self.queue@[k].rec@ == self.history@[self.history@.len() - self.queue@.len()
                + k]
    }

    /// A witness index pins down `idx_of` under unique ids.
    pub proof fn lemma_idx_of(self, k: int, id: int)
        requires
            self.ids_unique(),
            0 <= k < self.counters@.len(),
            self.counters@[k].id == id,
        ensures
            self.spec_has(id),
            self.idx_of(id) == k,
    {
        assert(self.spec_has(id));
        let j = self.idx_of(id);
        if j < k {
            assert(self.counters@[j].id != self.counters@[k].id);
        } else if j > k {
            assert(self.counters@[k].id != self.counters@[j].id);
        }
    }

    /// An empty store: no counters, no history, transaction ids start at
    /// zero.
    pub fn new() -> (r: CounterStore)
        ensures
            r.wf(),
            r.counters@.len() == 0,
            r.next_tx_id == 0,
            r.queue@.len() == 0,
            r.history@ =~= Seq::<Rec>::empty(),
    {
        CounterStore {
            counters: Vec::new(),
            next_tx_id: 0,
            queue: Vec::new(),
            history: Ghost(Seq::empty()),
        }
    }

    /// Linear scan for the counter with this id.
    fn find(&self, atomic_id: i32) -> (r: Option<usize>)
        requires
            self.ids_unique(),
        ensures
            match r {
                Some(k) => k < self.counters@.len() && self.counters@[k as int].id == atomic_id
                    && self.spec_has(atomic_id as int) && self.idx_of(atomic_id as int)
                    == k as int,
                None => !self.spec_has(atomic_id as int),
            },
    {
        let mut k: usize = 0;
        while k < self.counters.len()
            invariant
                k <= self.counters@.len(),
                forall|j: int| 0 <= j < k ==> (#[trigger] self.counters@[j]).id != atomic_id,
                self.ids_unique(),
            decreases self.counters@.len() - k,
        {
            if self.counters[k].id == atomic_id {
                proof {
                    self.lemma_idx_of(k as int, atomic_id as int);
                }
                return Some(k);
            }
            k = k + 1;
        }
        None
    }

    /// What a fresh counter entry looks like.
    pub open spec fn fresh_entry(e: CounterEntry, id: i32, min_value: i32, log_size: usize) -> bool {
        &&& e.id == id
        &&& e.atomic.value == 0
        &&& e.atomic.min_value == min_value
        &&& e.atomic.log_size == log_size
        &&& e.log@ =~= Seq::<u8>::empty()
        &&& e.snap@ =~= Seq::<u8>::empty()
        &&& e.logged@ =~= Seq::<Rec>::empty()
    }

    /// What a successful create leaves behind: one fresh counter appended,
    /// everything else untouched.
    pub open spec fn create_post(
        pre: CounterStore,
        post: CounterStore,
        id: i32,
        min_value: i32,
        log_size: usize,
    ) -> bool {
        &&& !pre.spec_has(id as int)
        &&& post.counters@.len() == pre.counters@.len() + 1
        &&& post.counters@.drop_last() == pre.counters@
        &&& Self::fresh_entry(post.counters@.last(), id, min_value, log_size)
        &&& post.spec_has(id as int)
        &&& post.next_tx_id == pre.next_tx_id
        &&& post.queue@ == pre.queue@
        &&& post.history@ == pre.history@
    }

    /// Creates a counter. Fails with `AlreadyExists`, changing nothing, iff
    /// the id is already present; otherwise registers a fresh counter with
    /// value zero, an empty log and an empty snapshot.
    pub fn create(&mut self, id: i32, min_value: i32, log_size: usize) -> (r: Result<
        (),
        StoreError,
    >)
        requires
            old(self).wf(),
        ensures
            final(self).wf(),
            match r {
                Ok(()) => Self::create_post(*old(self), *final(self), id, min_value, log_size),
                Err(e) => {
                    &&& e == StoreError::AlreadyExists
                    &&& old(self).spec_has(id as int)
                    &&& *final(self) == *old(self)
                },
            },
    {
        if self.find(id).is_some() {
            return Err(StoreError::AlreadyExists);
        }
        let entry = CounterEntry {
            id,
            atomic: DbAtomic::new(min_value, log_size),
            log: Vec::new(),
            snap: Vec::new(),
            logged: Ghost(Seq::empty()),
        };
        proof {
            assert(encode_log(Seq::<Rec>::empty(), log_size as nat) =~= Seq::<u8>::empty());
            assert(Seq::<Rec>::empty().map_values(|r: Rec| enc_of(r, log_size as nat)) =~= Seq::<
                Seq<u8>,
            >::empty());
        }
        let ghost pre = *self;
        self.counters.push(entry);
        proof {
            assert(self.counters@.drop_last() =~= pre.counters@);
            assert forall|k: int| 0 <= k < self.queue@.len() implies self.msg_wf(
                #[trigger] self.queue@[k],
            ) by {
                let m = pre.queue@[k];
                assert(pre.msg_wf(m));
                let j = pre.idx_of(m.atomic_id as int);
                assert(self.counters@[j].id == m.atomic_id);
                self.lemma_idx_of(j, m.atomic_id as int);
            }
            assert forall|i: int|
                0 <= i < self.counters@.len() implies entry_wf(#[trigger] self.counters@[i]) by {
                if i < pre.counters@.len() {
                    assert(entry_wf(pre.counters@[i]));
                }
            }
        }
        Ok(())
    }

    /// `e` with its value replaced; everything else kept.
    pub open spec fn entry_with_value(e: CounterEntry, v: i32) -> CounterEntry {
        CounterEntry {
            id: e.id,
            atomic: DbAtomic { value: v, min_value: e.atomic.min_value, log_size: e.atomic.log_size },
            log: e.log,
            snap: e.snap,
            logged: e.logged,
        }
    }

    /// The full contract of one mutation against the timestamp `ts` it was
    /// stamped with. `NotFound` iff the id is absent; `BelowFloor` iff the
    /// new value would sink below the floor; `RecordTooLarge` iff the
    /// un-padded record text would not fit the counter's record width — each
    /// failure leaving the store untouched. Otherwise the counter's value
    /// moves by exactly `delta`, the next transaction id is allocated to the
    /// commit, the commit is appended to the history, and its encoded record
    /// is enqueued behind every earlier write.
    pub open spec fn mutate_post(
        pre: CounterStore,
        post: CounterStore,
        atomic_id: i32,
        delta: i32,
        ts: Seq<u8>,
        payload: Seq<u8>,
        r: Result<i32, StoreError>,
    ) -> bool {
        if !pre.spec_has(atomic_id as int) {
            &&& r == Err::<i32, StoreError>(StoreError::NotFound)
            &&& post == pre
        } else {
            let e = pre.entry_of(atomic_id as int);
            let updated = e.atomic.value + delta;
            let rec = Rec {
                tx_id: pre.next_tx_id as int,
                atomic_id: atomic_id as int,
                delta: delta as int,
                updated,
                datetime: ts,
                payload,
            };
            if updated < e.atomic.min_value {
                &&& r == Err::<i32, StoreError>(StoreError::BelowFloor)
                &&& post == pre
            } else if !rec_fits(rec, e.atomic.log_size as nat) {
                &&& r == Err::<i32, StoreError>(StoreError::RecordTooLarge)
                &&& post == pre
            } else {
                &&& r == Ok::<i32, StoreError>(updated as i32)
                &&& post.counters@ == pre.counters@.update(
                    pre.idx_of(atomic_id as int),
                    Self::entry_with_value(e, updated as i32),
                )
                &&& post.next_tx_id as int == pre.next_tx_id as int + 1
                &&& post.history@ == pre.history@.push(rec)
                &&& post.queue@.len() == pre.queue@.len() + 1
                &&& post.queue@.drop_last() == pre.queue@
                &&& post.queue@.last().atomic_id == atomic_id
                &&& post.queue@.last().updated_value as int == updated
                &&& post.queue@.last().rec@ == rec
                &&& post.queue@.last().bytes@ == enc_of(rec, e.atomic.log_size as nat)
            }
        }
    }

    /// Mutates a counter by `delta` against a caller-supplied timestamp,
    /// with the full compare-before-commit discipline: the floor check and
    /// the record-size check both happen before anything is committed, so a
    /// rejected mutation leaves value, history and queue untouched, and no
    /// committed value is ever left unlogged. The machine limits are on the
    /// caller: the running value may not be pushed past the 32-bit maximum
    /// and the transaction counter may not be exhausted.
    pub fn mutate_at(
        &mut self,
        atomic_id: i32,
        delta: i32,
        datetime: Vec<u8>,
        payload: Vec<u8>,
    ) -> (r: Result<i32, StoreError>)
        requires
            old(self).wf(),
            old(self).next_tx_id < u64::MAX,
            old(self).spec_has(atomic_id as int) ==> old(self).entry_of(
                atomic_id as int,
            ).atomic.value + delta <= i32::MAX,
        ensures
            final(self).wf(),
            Self::mutate_post(*old(self), *final(self), atomic_id, delta, datetime@, payload@, r),
    {
        let k = match self.find(atomic_id) {
            Some(k) => k,
            None => {
                return Err(StoreError::NotFound);
            },
        };
        let current: i32 = self.counters[k].atomic.value;
        let min_value: i32 = self.counters[k].atomic.min_value;
        let log_size: usize = self.counters[k].atomic.log_size;
        let updated64: i64 = current as i64 + delta as i64;
        if updated64 < min_value as i64 {
            return Err(StoreError::BelowFloor);
        }
        let updated: i32 = updated64 as i32;
        let rec = AtomicLog {
            tx_id: self.next_tx_id,
            value: delta,
            updated_value: updated,
            datetime,
            payload,
        };
        let line = match encode_record(&rec, log_size) {
            Ok(line) => line,
            Err(_) => {
                return Err(StoreError::RecordTooLarge);
            },
        };
        let ghost pre = *self;
        let ghost new_rec = Rec {
            tx_id: self.next_tx_id as int,
            atomic_id: atomic_id as int,
            delta: delta as int,
            updated: updated as int,
            datetime: rec.datetime@,
            payload: rec.payload@,
        };
        let tx = self.next_tx_id;
        self.next_tx_id = tx + 1;
        self.counters[k].atomic.value = updated;
        let msg = FsMessage { bytes: line, atomic_id, updated_value: updated, rec: Ghost(new_rec) };
        self.queue.push(msg);
        self.history = Ghost(pre.history@.push(new_rec));
        proof {
            assert(self.counters@ =~= pre.counters@.update(
                k as int,
                Self::entry_with_value(pre.counters@[k as int], updated),
            ));
            assert(forall|i: int|
                0 <= i < self.counters@.len() ==> (#[trigger] self.counters@[i]).id
                    == pre.counters@[i].id);
            assert forall|id: int| pre.spec_has(id) implies self.spec_has(id) by {
                let w = choose|w: int|
                    0 <= w < pre.counters@.len() && (#[trigger] pre.counters@[w]).id == id;
                assert(self.counters@[w].id == id);
            }
            assert forall|i: int|
                0 <= i < self.counters@.len() implies entry_wf(#[trigger] self.counters@[i]) by {
                assert(entry_wf(pre.counters@[i]));
                if i == k as int {
                    let e = self.counters@[i];
                    let p = pre.counters@[i];
                    assert(e.log@ == p.log@ && e.logged@ == p.logged@ && e.snap@ == p.snap@);
                    assert(e.atomic.value as int == updated as int >= min_value as int);
                }
            }
            assert forall|k2: int| 0 <= k2 < self.queue@.len() implies self.msg_wf(
                #[trigger] self.queue@[k2],
            ) && self.queue@[k2].rec@ == self.history@[self.history@.len() - self.queue@.len()
                + k2] by {
                let m = self.queue@[k2];
                if k2 < pre.queue@.len() {
                    assert(m == pre.queue@[k2]);
                    assert(pre.msg_wf(m));
                    let j = pre.idx_of(m.atomic_id as int);
                    assert(self.counters@[j].id == m.atomic_id);
                    self.lemma_idx_of(j, m.atomic_id as int);
                    assert(self.entry_of(m.atomic_id as int).atomic.log_size == pre.entry_of(
                        m.atomic_id as int,
                    ).atomic.log_size);
                } else {
                    assert(m == msg);
                    self.lemma_idx_of(k as int, atomic_id as int);
                }
            }
            pre.lemma_idx_of(k as int, atomic_id as int);
            assert(self.queue@.drop_last() =~= pre.queue@);
            let e = pre.entry_of(atomic_id as int);
            assert(e == pre.counters@[k as int]);
            assert(updated as int == e.atomic.value + delta);
            let rr = Rec {
                tx_id: pre.next_tx_id as int,
                atomic_id: atomic_id as int,
                delta: delta as int,
                updated: e.atomic.value + delta,
                datetime: rec.datetime@,
                payload: rec.payload@,
            };
            assert(new_rec == rr);
            assert(Self::mutate_post(pre, *self, atomic_id, delta, rec.datetime@, rec.payload@, Ok(
                updated,
            )));
        }
        Ok(updated)
    }

    /// Mutates a counter by `delta`, stamping the commit with the clock's
    /// current time. The contract holds for whatever timestamp the clock
    /// produced, and the timestamp is at most 30 bytes: wherever the content
    /// fits the record width with any such timestamp, the commit is owed.
    pub fn mutate(&mut self, atomic_id: i32, delta: i32, payload: Vec<u8>) -> (r: Result<
        i32,
        StoreError,
    >)
        requires
            old(self).wf(),
            old(self).next_tx_id < u64::MAX,
            old(self).spec_has(atomic_id as int) ==> old(self).entry_of(
                atomic_id as int,
            ).atomic.value + delta <= i32::MAX,
        ensures
            final(self).wf(),
            exists|ts: Seq<u8>|
                #[trigger] timestamp_wf(ts) && ts.len() <= 30 && Self::mutate_post(
                    *old(self),
                    *final(self),
                    atomic_id,
                    delta,
                    ts,
                    payload@,
                    r,
                ),
    {
        let datetime = now_rfc3339();
        let ghost tsv = datetime@;
        let r = self.mutate_at(atomic_id, delta, datetime, payload);
        proof {
            assert(timestamp_wf(tsv) && tsv.len() <= 30);
            assert(Self::mutate_post(*old(self), *self, atomic_id, delta, tsv, payload@, r));
        }
        r
    }

    /// Creates a counter from a create request, as the transports hand it
    /// over.
    pub fn create_atomic(&mut self, payload: CreateAtomicPayload) -> (r: Result<(), StoreError>)
        requires
            old(self).wf(),
        ensures
            final(self).wf(),
            match r {
                Ok(()) => Self::create_post(
                    *old(self),
                    *final(self),
                    payload.id,
                    payload.min_value,
                    payload.log_size,
                ),
                Err(e) => {
                    &&& e == StoreError::AlreadyExists
                    &&& old(self).spec_has(payload.id as int)
                    &&& *final(self) == *old(self)
                },
            },
    {
        self.create(payload.id, payload.min_value, payload.log_size)
    }

    /// Reads a counter: its current value and its floor. Fails with
    /// `NotFound` iff the id is absent; never changes anything.
    pub fn get(&self, atomic_id: i32) -> (r: Result<(i32, i32), StoreError>)
        requires
            self.wf(),
        ensures
            match r {
                Ok((value, min_value)) => self.spec_has(atomic_id as int) && value == self.entry_of(
                    atomic_id as int,
                ).atomic.value && min_value == self.entry_of(atomic_id as int).atomic.min_value,
                Err(e) => e == StoreError::NotFound && !self.spec_has(atomic_id as int),
            },
    {
        match self.find(atomic_id) {
            Some(k) => Ok((self.counters[k].atomic.value, self.counters[k].atomic.min_value)),
            None => Err(StoreError::NotFound),
        }
    }

    /// What draining one message leaves behind: the oldest queued write gone
    /// from the head of the queue, its bytes appended to its counter's log
    /// image, the snapshot text rewritten to the committed value, and
    /// everything else kept.
    pub open spec fn drain_post(
        pre: CounterStore,
        post: CounterStore,
        bytes: Seq<u8>,
        id: i32,
    ) -> bool {
        &&& pre.queue@.len() > 0
        &&& bytes == pre.queue@[0].bytes@
        &&& id == pre.queue@[0].atomic_id
        &&& post.queue@ == pre.queue@.skip(1)
        &&& post.next_tx_id == pre.next_tx_id
        &&& post.history@ == pre.history@
        &&& post.counters@ == pre.counters@.update(
            pre.idx_of(id as int),
            post.counters@[pre.idx_of(id as int)],
        )
        &&& ({
            let ppe = pre.entry_of(id as int);
            let pe = post.counters@[pre.idx_of(id as int)];
            &&& pe.id == ppe.id
            &&& pe.atomic == ppe.atomic
            &&& pe.log@ == ppe.log@ + bytes
            &&& pe.logged@ == ppe.logged@.push(pre.queue@[0].rec@)
            &&& pe.snap@ == dec_int(pre.queue@[0].updated_value as int)
        })
    }

    /// Performs the oldest queued disk write against the in-store images
    /// and hands the caller the exact bytes, and the counter id, to append
    /// to that counter's log file. Writes drain strictly in enqueue order —
    /// one consumer, one ordered queue — so durable order matches commit
    /// order. Returns `None`, changing nothing, iff the queue is empty.
    pub fn drain_one(&mut self) -> (r: Option<(Vec<u8>, i32)>)
        requires
            old(self).wf(),
        ensures
            final(self).wf(),
            match r {
                None => old(self).queue@.len() == 0 && *final(self) == *old(self),
                Some((bytes, id)) => Self::drain_post(*old(self), *final(self), bytes@, id),
            },
    {
        if self.queue.len() == 0 {
            return None;
        }
        let ghost pre = *self;
        let aid = self.queue[0].atomic_id;
        assert(pre.msg_wf(pre.queue@[0]));
        let k = match self.find(aid) {
            Some(k) => k,
            None => {
                proof {
                    assert(false);
                }
                0
            },
        };
        let msg = self.queue.remove(0);
        push_bytes(&mut self.counters[k].log, msg.bytes.as_slice());
        let snap = i32_to_decimal(msg.updated_value);
        self.counters[k].snap = snap;
        self.counters[k].logged = Ghost(pre.counters@[k as int].logged@.push(msg.rec@));
        proof {
            let width = pre.counters@[k as int].atomic.log_size as nat;
            lemma_encode_log_push(pre.counters@[k as int].logged@, msg.rec@, width);
            assert(self.queue@ =~= pre.queue@.skip(1));
            assert(forall|i: int|
                0 <= i < self.counters@.len() ==> (#[trigger] self.counters@[i]).id
                    == pre.counters@[i].id);
            assert forall|id: int| pre.spec_has(id) implies self.spec_has(id) by {
                let w = choose|w: int|
                    0 <= w < pre.counters@.len() && (#[trigger] pre.counters@[w]).id == id;
                assert(self.counters@[w].id == id);
            }
            assert(self.counters@ =~= pre.counters@.update(
                k as int,
                self.counters@[k as int],
            ));
            assert forall|i: int|
                0 <= i < self.counters@.len() implies entry_wf(#[trigger] self.counters@[i]) by {
                assert(entry_wf(pre.counters@[i]));
                if i == k as int {
                    let e = self.counters@[i];
                    let p = pre.counters@[i];
                    assert(e.log@ == p.log@ + msg.bytes@);
                    assert(msg.bytes@ == enc_of(msg.rec@, width));
                    assert(e.log@ == encode_log(e.logged@, width));
                    assert(rec_ok(msg.rec@, e));
                }
            }
            assert forall|k2: int| 0 <= k2 < self.queue@.len() implies self.msg_wf(
                #[trigger] self.queue@[k2],
            ) && self.queue@[k2].rec@ == self.history@[self.history@.len() - self.queue@.len()
                + k2] by {
                let m = self.queue@[k2];
                assert(m == pre.queue@[k2 + 1]);
                assert(pre.msg_wf(m));
                let j = pre.idx_of(m.atomic_id as int);
                assert(self.counters@[j].id == m.atomic_id);
                self.lemma_idx_of(j, m.atomic_id as int);
                assert(self.entry_of(m.atomic_id as int).atomic.log_size == pre.entry_of(
                    m.atomic_id as int,
                ).atomic.log_size);
            }
            pre.lemma_idx_of(k as int, aid as int);
            assert(Self::drain_post(pre, *self, msg.bytes@, aid));
        }
        Some((msg.bytes, aid))
    }

    /// Drains the whole queue in order, handing back every write performed:
    /// the encoded lines with their counter ids, oldest first. Every
    /// counter's log image grows by exactly the commits that were queued for
    /// it, in queue order; values, floors and history are untouched.
    pub fn drain_all(&mut self) -> (r: Vec<(Vec<u8>, i32)>)
        requires
            old(self).wf(),
        ensures
            final(self).wf(),
            final(self).queue@.len() == 0,
            r@.len() == old(self).queue@.len(),
            final(self).history@ == old(self).history@,
            final(self).next_tx_id == old(self).next_tx_id,
            forall|i: int|
                0 <= i < r@.len() ==> (#[trigger] r@[i]).0@ == old(self).queue@[i].bytes@
                    && r@[i].1 == old(self).queue@[i].atomic_id,
            final(self).counters@.len() == old(self).counters@.len(),
            forall|i: int|
                0 <= i < old(self).counters@.len() ==> {
                    let pe = old(self).counters@[i];
                    let fe = #[trigger] final(self).counters@[i];
                    fe.id == pe.id && fe.atomic == pe.atomic && fe.logged@ == pe.logged@
                        + queued_recs_for(old(self).queue@, pe.id)
                },
    {
        let mut out: Vec<(Vec<u8>, i32)> = Vec::new();
        proof {
            assert forall|i: int| 0 <= i < self.counters@.len() implies self.counters@[i].logged@
                =~= old(self).counters@[i].logged@ + queued_recs_for(
                old(self).queue@.take(0),
                self.counters@[i].id,
            ) by {
                assert(old(self).queue@.take(0) =~= Seq::<FsMessage>::empty());
            }
        }
        while self.queue.len() > 0
            invariant
                self.wf(),
                self.history@ == old(self).history@,
                self.next_tx_id == old(self).next_tx_id,
                out@.len() + self.queue@.len() == old(self).queue@.len(),
                self.queue@ == old(self).queue@.skip(out@.len() as int),
                forall|i: int|
                    0 <= i < out@.len() ==> (#[trigger] out@[i]).0@ == old(self).queue@[i].bytes@
                        && out@[i].1 == old(self).queue@[i].atomic_id,
                self.counters@.len() == old(self).counters@.len(),
                forall|i: int|
                    0 <= i < old(self).counters@.len() ==> {
                        let pe = old(self).counters@[i];
                        let fe = #[trigger] self.counters@[i];
                        fe.id == pe.id && fe.atomic == pe.atomic && fe.logged@ == pe.logged@
                            + queued_recs_for(
                            old(self).queue@.take(out@.len() as int),
                            pe.id,
                        )
                    },
            decreases self.queue@.len(),
        {
            let ghost qpre = self.queue@;
            let ghost spre = *self;
            let ghost n = out@.len() as int;
            match self.drain_one() {
                None => {
                    proof {
                        assert(false);
                    }
                },
                Some(item) => {
                    proof {
                        assert(qpre[0] == old(self).queue@[n]);
                        let id0 = qpre[0].atomic_id;
                        let k = spre.idx_of(id0 as int);
                        assert(old(self).queue@.take(n + 1).drop_last() =~= old(
                            self,
                        ).queue@.take(n));
                        assert(old(self).queue@.take(n + 1).last() == old(self).queue@[n]);
                        assert forall|i: int|
                            0 <= i < old(self).counters@.len() implies {
                            let pe = old(self).counters@[i];
                            let fe = #[trigger] self.counters@[i];
                            fe.id == pe.id && fe.atomic == pe.atomic && fe.logged@ == pe.logged@
                                + queued_recs_for(old(self).queue@.take(n + 1), pe.id)
                        } by {
                            let pe = old(self).counters@[i];
                            let fe = self.counters@[i];
                            if i == k {
                                assert(fe.logged@ =~= pe.logged@ + queued_recs_for(
                                    old(self).queue@.take(n + 1),
                                    pe.id,
                                ));
                            } else {
                                assert(spre.counters@[i].id != spre.counters@[k].id);
                                assert(fe == spre.counters@[i]);
                            }
                        }
                    }
                    out.push(item);
                    assert(self.queue@ =~= old(self).queue@.skip(out@.len() as int));
                },
            }
        }
        proof {
            assert(old(self).queue@.take(out@.len() as int) =~= old(self).queue@);
        }
        out
    }

    /// The last `max` records of a counter's durable log image, by the
    /// tail-read arithmetic. Fails with `NotFound` iff the id is absent;
    /// reads nothing but the log image.
    pub fn get_logs(&self, atomic_id: i32, max: usize) -> (r: Result<Vec<u8>, StoreError>)
        requires
            self.wf(),
        ensures
            match r {
                Ok(bytes) => self.spec_has(atomic_id as int) && bytes@ == spec_tail(
                    self.entry_of(atomic_id as int).log@,
                    self.entry_of(atomic_id as int).atomic.log_size as nat,
                    max as nat,
                ),
                Err(e) => e == StoreError::NotFound && !self.spec_has(atomic_id as int),
            },
    {
        match self.find(atomic_id) {
            Some(k) => Ok(
                tail_bytes(self.counters[k].log.as_slice(), self.counters[k].atomic.log_size, max),
            ),
            None => Err(StoreError::NotFound),
        }
    }

    /// The snapshot text of a counter: the decimal of the last durably
    /// written value, empty before the first drained write. Fails with
    /// `NotFound` iff the id is absent.
    pub fn get_snapshot(&self, atomic_id: i32) -> (r: Result<Vec<u8>, StoreError>)
        requires
            self.wf(),
        ensures
            match r {
                Ok(bytes) => self.spec_has(atomic_id as int) && bytes@ == self.entry_of(
                    atomic_id as int,
                ).snap@,
                Err(e) => e == StoreError::NotFound && !self.spec_has(atomic_id as int),
            },
    {
        match self.find(atomic_id) {
            Some(k) => {
                let n = self.counters[k].snap.len();
                Ok(crate::codec::copy_range(self.counters[k].snap.as_slice(), 0, n))
            },
            None => Err(StoreError::NotFound),
        }
    }
}

/// The commits among queued messages addressed to one counter, in queue
/// order.
pub open spec fn queued_recs_for(q: Seq<FsMessage>, id: i32) -> Seq<Rec>
    decreases q.len(),
{
    if q.len() == 0 {
        Seq::empty()
    } else if q.last().atomic_id == id {
        queued_recs_for(q.drop_last(), id).push(q.last().rec@)
    } else {
        queued_recs_for(q.drop_last(), id)
    }
}

/// Appending one commit extends the log image by exactly its encoding.
pub proof fn lemma_encode_log_push(rs: Seq<Rec>, r: Rec, width: nat)
    ensures
        encode_log(rs.push(r), width) == encode_log(rs, width) + enc_of(r, width),
{
    assert(rs.push(r).map_values(|x: Rec| enc_of(x, width)) =~= rs.map_values(
        |x: Rec| enc_of(x, width),
    ).push(enc_of(r, width)));
    lemma_concat_push(rs.map_values(|x: Rec| enc_of(x, width)), enc_of(r, width));
}

// ---------------------------------------------------------------------------
// Laws
// ---------------------------------------------------------------------------

/// The value transition of one mutation: the delta lands when the result
/// stays at or above the floor, else the value is unchanged.
pub open spec fn mutate_value_step(v: int, delta: int, min_value: int) -> int {
    if v + delta >= min_value {
        v + delta
    } else {
        v
    }
}

/// The value after a sequence of mutations applied oldest first.
pub open spec fn apply_deltas(v: int, deltas: Seq<int>, min_value: int) -> int
    decreases deltas.len(),
{
    if deltas.len() == 0 {
        v
    } else {
        apply_deltas(mutate_value_step(v, deltas.first(), min_value), deltas.drop_first(), min_value)
    }
}

/// The sum of exactly those deltas that are accepted along the way.
pub open spec fn accepted_sum(v: int, deltas: Seq<int>, min_value: int) -> int
    decreases deltas.len(),
{
    if deltas.len() == 0 {
        0
    } else if v + deltas.first() >= min_value {
        deltas.first() + accepted_sum(v + deltas.first(), deltas.drop_first(), min_value)
    } else {
        accepted_sum(v, deltas.drop_first(), min_value)
    }
}

/// No update is lost: after any sequence of mutations, in commit order, the
/// final value is the initial value plus the sum of exactly those deltas
/// that kept the running value at or above the floor at their commit point.
pub proof fn lemma_no_lost_updates(v: int, deltas: Seq<int>, min_value: int)
    ensures
        apply_deltas(v, deltas, min_value) == v + accepted_sum(v, deltas, min_value),
    decreases deltas.len(),
{
    if deltas.len() > 0 {
        if v + deltas.first() >= min_value {
            lemma_no_lost_updates(v + deltas.first(), deltas.drop_first(), min_value);
        } else {
            lemma_no_lost_updates(v, deltas.drop_first(), min_value);
        }
    }
}

/// A mutation whose record fits moves the counter's value by exactly the
/// value-transition step: the delta lands in full or not at all.
pub proof fn lemma_mutate_is_value_step(
    pre: CounterStore,
    post: CounterStore,
    atomic_id: i32,
    delta: i32,
    ts: Seq<u8>,
    payload: Seq<u8>,
    r: Result<i32, StoreError>,
)
    requires
        pre.wf(),
        post.wf(),
        pre.spec_has(atomic_id as int),
        CounterStore::mutate_post(pre, post, atomic_id, delta, ts, payload, r),
        rec_fits(
            Rec {
                tx_id: pre.next_tx_id as int,
                atomic_id: atomic_id as int,
                delta: delta as int,
                updated: pre.entry_of(atomic_id as int).atomic.value + delta,
                datetime: ts,
                payload,
            },
            pre.entry_of(atomic_id as int).atomic.log_size as nat,
        ),
    ensures
        post.spec_has(atomic_id as int),
        post.entry_of(atomic_id as int).atomic.value as int == mutate_value_step(
            pre.entry_of(atomic_id as int).atomic.value as int,
            delta as int,
            pre.entry_of(atomic_id as int).atomic.min_value as int,
        ),
{
    let k = pre.idx_of(atomic_id as int);
    let e = pre.entry_of(atomic_id as int);
    if e.atomic.value + delta >= e.atomic.min_value {
        assert(post.counters@[k].id == atomic_id);
        post.lemma_idx_of(k, atomic_id as int);
    }
}

/// Transaction ids are strictly increasing, hence unique, across the whole
/// store's history, whatever counters the commits touched.
pub proof fn lemma_tx_ids_strictly_increasing(s: CounterStore, i: int, j: int)
    requires
        s.wf(),
        0 <= i < j < s.history@.len(),
    ensures
        s.history@[i].tx_id < s.history@[j].tx_id,
        s.history@[i].tx_id != s.history@[j].tx_id,
{
}

/// A fitting record encodes to exactly the record width.
pub proof fn lemma_enc_len(r: Rec, width: nat)
    requires
        rec_fits(r, width),
    ensures
        enc_of(r, width).len() == width,
{
}

/// A record that reads back exactly: it fits its width, its numeric fields
/// are in machine range, its timestamp is well-formed, and its payload does
/// not end in padding bytes.
pub open spec fn rec_readable(r: Rec, width: nat) -> bool {
    &&& rec_fits(r, width)
    &&& 0 <= r.tx_id <= u64::MAX
    &&& i32::MIN <= r.delta <= i32::MAX
    &&& i32::MIN <= r.updated <= i32::MAX
    &&& timestamp_wf(r.datetime)
    &&& (r.payload.len() == 0 || !is_pad(r.payload.last()))
}

/// The read-back law of a log: a tail read of `max` records over the joined
/// encodings of `recs` returns the last `min(max, n)` whole lines, and line
/// `i` of the tail decodes back to exactly the fields of the corresponding
/// commit.
pub proof fn lemma_log_tail_decodes(recs: Seq<Rec>, width: nat, max: nat, i: int)
    requires
        width > 0,
        forall|k: int| 0 <= k < recs.len() ==> rec_readable(#[trigger] recs[k], width),
        0 <= i < (if recs.len() <= max {
            recs.len() as int
        } else {
            max as int
        }),
    ensures
        ({
            let t = spec_tail(encode_log(recs, width), width, max);
            let n = if recs.len() <= max {
                recs.len() as int
            } else {
                max as int
            };
            let r = recs[recs.len() - n + i];
            &&& t.len() == n * width
            &&& spec_decode(t.subrange(i * width, i * width + width)) == Some(
                ((r.tx_id as u64), (r.delta as i32), (r.updated as i32), r.datetime, r.payload),
            )
        }),
{
    let chunks = recs.map_values(|x: Rec| enc_of(x, width));
    assert forall|k: int| 0 <= k < chunks.len() implies (#[trigger] chunks[k]).len() == width by {
        lemma_enc_len(recs[k], width);
    }
    lemma_tail_aligned(chunks, width, max);
    let n = if recs.len() <= max {
        recs.len() as int
    } else {
        max as int
    };
    let start = recs.len() - n;
    let tailchunks = chunks.skip(start);
    assert forall|k: int| 0 <= k < tailchunks.len() implies (#[trigger] tailchunks[k]).len()
        == width by {
        assert(tailchunks[k] == chunks[start + k]);
    }
    lemma_concat_len(tailchunks, width);
    lemma_concat_chunk(tailchunks, width, i);
    let r = recs[start + i];
    assert(tailchunks[i] == enc_of(r, width));
    assert(r.tx_id as u64 as int == r.tx_id);
    assert(r.delta as i32 as int == r.delta);
    assert(r.updated as i32 as int == r.updated);
    crate::codec::lemma_encode_decode(
        r.tx_id as u64,
        r.delta as i32,
        r.updated as i32,
        r.datetime,
        r.payload,
        width,
    );
}

/// The read-back law at the store: with every commit of a counter
/// readable, each line of a `get_logs` tail decodes to exactly the fields
/// of the corresponding commit — what was passed to the mutation comes back
/// from the tail.
pub proof fn lemma_store_tail_decodes(s: CounterStore, id: int, max: nat, i: int)
    requires
        s.wf(),
        s.spec_has(id),
        s.entry_of(id).atomic.log_size > 0,
        forall|k: int|
            0 <= k < s.entry_of(id).logged@.len() ==> rec_readable(
                #[trigger] s.entry_of(id).logged@[k],
                s.entry_of(id).atomic.log_size as nat,
            ),
        0 <= i < (if s.entry_of(id).logged@.len() <= max {
            s.entry_of(id).logged@.len() as int
        } else {
            max as int
        }),
    ensures
        ({
            let e = s.entry_of(id);
            let width = e.atomic.log_size as nat;
            let t = spec_tail(e.log@, width, max);
            let n = if e.logged@.len() <= max {
                e.logged@.len() as int
            } else {
                max as int
            };
            let r = e.logged@[e.logged@.len() - n + i];
            &&& t.len() == n * width
            &&& spec_decode(t.subrange(i * width, i * width + width)) == Some(
                ((r.tx_id as u64), (r.delta as i32), (r.updated as i32), r.datetime, r.payload),
            )
        }),
{
    let e = s.entry_of(id);
    assert(entry_wf(e));
    lemma_log_tail_decodes(e.logged@, e.atomic.log_size as nat, max, i);
}

} // verus!
