use vstd::prelude::*;

verus! {

use crate::Config;
use crate::Time;
use crate::buffer::Beatbuffer;
use crate::buffer::spec_added_end;
use crate::buffer::spec_added_start;
use crate::buffer::spec_max_time;
use crate::buffer::spec_min_time;
use crate::heartbeat::Heartbeat;
use crate::heartbeat::Heartbeats;

/// What one per-key operation leaves behind: the buffer to store back into
/// the slot, if any, and the buffer evicted to the caller, if any.
pub struct SlotOutcome {
    pub store_back: Option<Beatbuffer>,
    pub evicted: Option<Beatbuffer>,
}

/// The heartbeats the slot's buffer holds after a batch lands: the batch
/// appended to what was there, or the batch alone for a fresh slot.
pub open spec fn merged_beats(slot: Option<Beatbuffer>, batch: Heartbeats) -> Seq<Heartbeat> {
    match slot {
        Some(b) => b.beats@ + batch.list@,
        None => batch.list@,
    }
}

/// The window's lower bound after a batch lands: an existing buffer's
/// window widens to cover the batch; a fresh buffer takes its bounds from
/// the batch, or from the clock reading for an empty batch.
pub open spec fn merged_start(slot: Option<Beatbuffer>, batch: Heartbeats, now: Time) -> Time {
    match slot {
        Some(b) => spec_added_start(b, batch),
        None => if batch.list@.len() == 0 {
            now
        } else {
            spec_min_time(batch.list@)
        },
    }
}

/// The window's upper bound after a batch lands.
pub open spec fn merged_end(slot: Option<Beatbuffer>, batch: Heartbeats, now: Time) -> Time {
    match slot {
        Some(b) => spec_added_end(b, batch),
        None => if batch.list@.len() == 0 {
            now
        } else {
            spec_max_time(batch.list@)
        },
    }
}

/// Whether the slot's buffer is full once the batch has landed.
pub open spec fn merged_full(
    slot: Option<Beatbuffer>,
    batch: Heartbeats,
    now: Time,
    cfg: Config,
) -> bool {
    let n = merged_beats(slot, batch).len();
    n != 0 && (n >= cfg.max_length || merged_end(slot, batch, now) - merged_start(slot, batch, now)
        >= cfg.max_time)
}

/// Whether `b` is exactly the buffer a batch landing on `slot` leaves.
pub open spec fn is_merged(
    b: Beatbuffer,
    slot: Option<Beatbuffer>,
    batch: Heartbeats,
    now: Time,
) -> bool {
    &&& b.beats@ == merged_beats(slot, batch)
    &&& b.start == merged_start(slot, batch, now)
    &&& b.end == merged_end(slot, batch, now)
}

/// The per-key decision a batch arrival runs under the slot's lock: land
/// the batch (appending, or creating the buffer), evaluate fullness once,
/// and either evict the buffer to the caller or store it back. Exactly one
/// of the two happens.
pub fn slot_add(slot: Option<Beatbuffer>, batch: Heartbeats, now: Time, cfg: &Config) -> (r:
    SlotOutcome)
    requires
        slot matches Some(b) ==> b.wf(),
    ensures
        merged_full(slot, batch, now, *cfg) ==> r.store_back is None && (r.evicted matches Some(b)
            && is_merged(b, slot, batch, now) && b.wf()),
        !merged_full(slot, batch, now, *cfg) ==> r.evicted is None && (r.store_back matches Some(b)
            && is_merged(b, slot, batch, now) && b.wf()),
{
    let buf = match slot {
        Some(mut b) => {
            b.add(batch);
            b
        },
        None => Beatbuffer::from_batch(batch, now),
    };
    if buf.is_full(cfg) {
        SlotOutcome { store_back: None, evicted: Some(buf) }
    } else {
        SlotOutcome { store_back: Some(buf), evicted: None }
    }
}

/// The per-key decision a sweep runs under the slot's lock: evict the
/// buffer only if it is already full, else leave the slot untouched.
pub fn slot_get_full(slot: Option<Beatbuffer>, cfg: &Config) -> (r: SlotOutcome)
    ensures
        match slot {
            Some(b) => if b.spec_is_full(*cfg) {
                r.evicted == Some(b) && r.store_back is None
            } else {
                r.store_back == Some(b) && r.evicted is None
            },
            None => r.evicted is None && r.store_back is None,
        },
{
    match slot {
        Some(b) => {
            if b.is_full(cfg) {
                SlotOutcome { store_back: None, evicted: Some(b) }
            } else {
                SlotOutcome { store_back: Some(b), evicted: None }
            }
        },
        None => SlotOutcome { store_back: None, evicted: None },
    }
}

/// The store of per-user buffers: a keyed collection with at most one
/// buffer per user identifier, and the configured thresholds.
pub struct BeatBuffers {
    pub entries: Vec<(u128, Beatbuffer)>,
    pub cfg: Config,
}

impl BeatBuffers {
    /// Well-formedness: one buffer per key, every buffer's window a proper
    /// interval.
    pub open spec fn wf(self) -> bool {
        &&& forall|j1: int, j2: int|
            0 <= j1 < j2 < self.entries@.len() ==> (#[trigger] self.entries@[j1].0)
                != (#[trigger] self.entries@[j2].0)
        &&& forall|j: int| 0 <= j < self.entries@.len() ==> (#[trigger] self.entries@[j].1).wf()
    }

    /// The buffer stored for a key, if any.
    pub open spec fn spec_get(self, k: u128) -> Option<Beatbuffer> {
        if exists|j: int| 0 <= j < self.entries@.len() && self.entries@[j].0 == k {
            Some(
                self.entries@[choose|j: int|
                    0 <= j < self.entries@.len() && self.entries@[j].0 == k].1,
            )
        } else {
            None
        }
    }

    /// An empty store with the given thresholds.
    pub fn new(cfg: Config) -> (s: BeatBuffers)
        ensures
            s.wf(),
            s.cfg == cfg,
            s.entries@.len() == 0,
            forall|k: u128| s.spec_get(k) is None,
    {
        BeatBuffers { entries: Vec::new(), cfg }
    }

    /// Finds the index of a key's entry.
    fn find_index(&self, k: u128) -> (r: Option<usize>)
        ensures
            r matches Some(j) ==> j < self.entries@.len() && self.entries@[j as int].0 == k,
            r is None ==> forall|j: int|
                0 <= j < self.entries@.len() ==> (#[trigger] self.entries@[j].0) != k,
    {
        let mut j: usize = 0;
        while j < self.entries.len()
            invariant
                0 <= j <= self.entries@.len(),
                forall|i: int| 0 <= i < j ==> (#[trigger] self.entries@[i].0) != k,
            decreases self.entries@.len() - j,
        {
            if self.entries[j].0 == k {
                return Some(j);
            }
            j += 1;
        }
        None
    }

    /// With unique keys, an entry found at an index is the one `spec_get`
    /// names.
    proof fn lemma_get_at(self, j: int, k: u128)
        requires
            self.wf(),
            0 <= j < self.entries@.len(),
            self.entries@[j].0 == k,
        ensures
            self.spec_get(k) == Some(self.entries@[j].1),
    {
        assert(exists|i: int| 0 <= i < self.entries@.len() && self.entries@[i].0 == k);
        let i = choose|i: int| 0 <= i < self.entries@.len() && self.entries@[i].0 == k;
        if i != j {
            if i < j {
                assert(self.entries@[i].0 != self.entries@[j].0);
            } else {
                assert(self.entries@[j].0 != self.entries@[i].0);
            }
        }
    }

    /// Takes a key's entry out of the store, leaving the other keys as they
    /// were.
    fn take_slot(&mut self, k: u128) -> (r: Option<Beatbuffer>)
        requires
            old(self).wf(),
        ensures
            final(self).wf(),
            final(self).cfg == old(self).cfg,
            r == old(self).spec_get(k),
            r matches Some(b) ==> b.wf(),
            final(self).spec_get(k) is None,
            forall|k2: u128| k2 != k ==> final(self).spec_get(k2) == old(self).spec_get(k2),
    {
        match self.find_index(k) {
            Some(j) => {
                proof {
                    self.lemma_get_at(j as int, k);
                }
                let ghost pre = *self;
                let entry = self.entries.remove(j);
                proof {
                    let old_e = pre.entries@;
                    let new_e = self.entries@;
                    assert(new_e == old_e.remove(j as int));
                    assert forall|i: int| 0 <= i < new_e.len() implies new_e[i] == (if i < j {
                        old_e[i]
                    } else {
                        old_e[i + 1]
                    }) by {}
                    assert forall|j1: int, j2: int|
                        0 <= j1 < j2 < new_e.len() implies (#[trigger] new_e[j1].0)
                        != (#[trigger] new_e[j2].0) by {
                        let o1: int = if j1 < j { j1 } else { j1 + 1 };
                        let o2: int = if j2 < j { j2 } else { j2 + 1 };
                        assert(old_e[o1].0 != old_e[o2].0);
                    }
                    assert forall|i: int| 0 <= i < new_e.len() implies (#[trigger] new_e[i].1).wf() by {
                        let o: int = if i < j { i } else { i + 1 };
                        assert(old_e[o].1.wf());
                    }
                    assert(final(self).wf());
                    assert forall|i: int|
                        0 <= i < new_e.len() implies (#[trigger] new_e[i].0) != k by {
                        let o: int = if i < j { i } else { i + 1 };
                        if o < j {
                            assert(old_e[o].0 != old_e[j as int].0);
                        } else {
                            assert(old_e[j as int].0 != old_e[o].0);
                        }
                    }
                    assert(self.spec_get(k) is None);
                    assert forall|k2: u128| k2 != k implies self.spec_get(k2) == pre.spec_get(
                        k2,
                    ) by {
                        if exists|i: int| 0 <= i < old_e.len() && old_e[i].0 == k2 {
                            let i = choose|i: int| 0 <= i < old_e.len() && old_e[i].0 == k2;
                            assert(i != j);
                            let ni: int = if i < j {
                                i
                            } else {
                                i - 1
                            };
                            assert(new_e[ni] == old_e[i]);
                            pre.lemma_get_at(i, k2);
                            self.lemma_get_at(ni, k2);
                        } else {
                            assert forall|i: int|
                                0 <= i < new_e.len() implies (#[trigger] new_e[i].0) != k2 by {
                                let o: int = if i < j { i } else { i + 1 };
                                assert(new_e[i] == old_e[o]);
                            }
                            assert(self.spec_get(k2) is None);
                            assert(pre.spec_get(k2) is None);
                        }
                    }
                    assert(old(self).spec_get(k) == Some(entry.1));
                }
                Some(entry.1)
            },
            None => {
                proof {
                    assert(self.spec_get(k) is None);
                }
                None
            },
        }
    }

    /// Puts a buffer into a key's empty slot, leaving the other keys as
    /// they were.
    fn put_slot(&mut self, k: u128, b: Beatbuffer)
        requires
            old(self).wf(),
            old(self).spec_get(k) is None,
            b.wf(),
        ensures
            final(self).wf(),
            final(self).cfg == old(self).cfg,
            final(self).spec_get(k) == Some(b),
            forall|k2: u128| k2 != k ==> final(self).spec_get(k2) == old(self).spec_get(k2),
    {
        let ghost pre = *self;
        proof {
            if exists|i: int| 0 <= i < pre.entries@.len() && pre.entries@[i].0 == k {
                assert(pre.spec_get(k) is Some);
            }
        }
        self.entries.push((k, b));
        proof {
            let old_e = pre.entries@;
            let new_e = self.entries@;
            let n = old_e.len() as int;
            assert(new_e == old_e.push((k, b)));
            assert forall|j1: int, j2: int|
                0 <= j1 < j2 < new_e.len() implies (#[trigger] new_e[j1].0) != (
            #[trigger] new_e[j2].0) by {
                if j2 < n {
                    assert(old_e[j1].0 != old_e[j2].0);
                } else {
                    assert(new_e[j2] == (k, b));
                    assert(old_e[j1].0 != k);
                }
            }
            assert forall|i: int| 0 <= i < new_e.len() implies (#[trigger] new_e[i].1).wf() by {
                if i < n {
                    assert(old_e[i].1.wf());
                } else {
                    assert(new_e[i] == (k, b));
                }
            }
            assert(final(self).wf());
            assert(new_e[n].0 == k);
            self.lemma_get_at(n, k);
            assert forall|k2: u128| k2 != k implies self.spec_get(k2) == pre.spec_get(k2) by {
                if exists|i: int| 0 <= i < old_e.len() && old_e[i].0 == k2 {
                    let i = choose|i: int| 0 <= i < old_e.len() && old_e[i].0 == k2;
                    assert(new_e[i] == old_e[i]);
                    pre.lemma_get_at(i, k2);
                    self.lemma_get_at(i, k2);
                } else {
                    assert forall|i: int|
                        0 <= i < new_e.len() implies (#[trigger] new_e[i].0) != k2 by {
                        if i < n {
                            assert(old_e[i].0 != k2);
                        } else {
                            assert(new_e[i] == (k, b));
                        }
                    }
                    assert(self.spec_get(k2) is None);
                    assert(pre.spec_get(k2) is None);
                }
            }
        }
    }

    /// Lands a batch on its user's slot: creates the buffer on the first
    /// batch for the key, appends on every later one, evaluates fullness
    /// exactly once, and removes and returns the buffer when it is full.
    /// `now` is the caller's clock reading, used only for an empty first
    /// batch's window. Other keys are untouched.
    pub fn add(&mut self, batch: Heartbeats, now: Time) -> (evicted: Option<Beatbuffer>)
        requires
            old(self).wf(),
        ensures
            final(self).wf(),
            final(self).cfg == old(self).cfg,
            ({
                let slot = old(self).spec_get(batch.user_id);
                let cfg0 = old(self).cfg;
                &&& (merged_full(slot, batch, now, cfg0) ==> final(self).spec_get(batch.user_id)
                    is None && (evicted matches Some(b) && is_merged(b, slot, batch, now)))
                &&& (!merged_full(slot, batch, now, cfg0) ==> evicted is None && (final(self).spec_get(
                    batch.user_id,
                ) matches Some(b) && is_merged(b, slot, batch, now)))
            }),
            forall|k: u128|
                k != batch.user_id ==> final(self).spec_get(k) == old(self).spec_get(k),
    {
        let user: u128 = batch.user_id;
        let slot = self.take_slot(user);
        let out = slot_add(slot, batch, now, &self.cfg);
        match out.store_back {
            Some(b) => self.put_slot(user, b),
            None => (),
        }
        out.evicted
    }

    /// Removes and returns a user's buffer only if it is already full;
    /// otherwise the slot — and every other key — is left untouched.
    pub fn get_full(&mut self, user_id: u128) -> (r: Option<Beatbuffer>)
        requires
            old(self).wf(),
        ensures
            final(self).wf(),
            final(self).cfg == old(self).cfg,
            match old(self).spec_get(user_id) {
                Some(b) => if b.spec_is_full(old(self).cfg) {
                    r == Some(b) && final(self).spec_get(user_id) is None
                } else {
                    r is None && final(self).spec_get(user_id) == Some(b)
                },
                None => r is None && final(self).spec_get(user_id) is None,
            },
            forall|k: u128| k != user_id ==> final(self).spec_get(k) == old(self).spec_get(k),
    {
        let slot = self.take_slot(user_id);
        let out = slot_get_full(slot, &self.cfg);
        match out.store_back {
            Some(b) => self.put_slot(user_id, b),
            None => (),
        }
        out.evicted
    }

    /// Drains the whole store: every entry leaves, each exactly once, in
    /// storage order, regardless of fullness; afterwards no key remains.
    pub fn flush(&mut self) -> (drained: Vec<(u128, Beatbuffer)>)
        requires
            old(self).wf(),
        ensures
            final(self).wf(),
            final(self).cfg == old(self).cfg,
            final(self).entries@.len() == 0,
            forall|k: u128| final(self).spec_get(k) is None,
            drained@ == old(self).entries@,
    {
        let mut out: Vec<(u128, Beatbuffer)> = Vec::new();
        core::mem::swap(&mut self.entries, &mut out);
        out
    }
}

/// Law: in a well-formed store exactly one entry carries a stored key, and
/// a key's lookup names that entry's buffer — so a drain that returns the
/// whole entry list hands each stored buffer out exactly once, and a key
/// with no entry holds nothing.
pub proof fn lemma_drain_exactly_once(s: BeatBuffers, k: u128)
    requires
        s.wf(),
    ensures
        (s.spec_get(k) is Some) <==> exists|j: int|
            0 <= j < s.entries@.len() && s.entries@[j].0 == k,
        s.spec_get(k) matches Some(b) ==> exists|j: int|
            0 <= j < s.entries@.len() && s.entries@[j] == (k, b),
        forall|j1: int, j2: int|
            0 <= j1 < s.entries@.len() && 0 <= j2 < s.entries@.len() && s.entries@[j1].0 == k
                && s.entries@[j2].0 == k ==> j1 == j2,
{
    if s.spec_get(k) is Some {
        let j = choose|j: int| 0 <= j < s.entries@.len() && s.entries@[j].0 == k;
        assert(s.entries@[j] == (k, s.entries@[j].1));
    }
    assert forall|j1: int, j2: int|
        0 <= j1 < s.entries@.len() && 0 <= j2 < s.entries@.len() && s.entries@[j1].0 == k
            && s.entries@[j2].0 == k implies j1 == j2 by {
        if j1 < j2 {
            assert(s.entries@[j1].0 != s.entries@[j2].0);
        } else if j2 < j1 {
            assert(s.entries@[j2].0 != s.entries@[j1].0);
        }
    }
}

/// All the heartbeats of a sequence of batches, in arrival order.
pub open spec fn concat_batches(batches: Seq<Heartbeats>) -> Seq<Heartbeat>
    decreases batches.len(),
{
    if batches.len() == 0 {
        Seq::empty()
    } else {
        concat_batches(batches.drop_last()) + batches.last().list@
    }
}

/// The heartbeats a buffer holds after being created from a first batch
/// and extended by each later batch in turn, as the slot decision does.
pub open spec fn beats_after_adds(first: Heartbeats, now: Time, rest: Seq<Heartbeats>) -> Seq<
    Heartbeat,
>
    decreases rest.len(),
{
    if rest.len() == 0 {
        Beatbuffer::spec_from_batch(first, now).beats@
    } else {
        beats_after_adds(first, now, rest.drop_last()) + rest.last().list@
    }
}

/// Law: across any sequence of batch arrivals for one key, the buffer that
/// is eventually evicted holds exactly the heartbeats of the batches that
/// built it, in arrival order — none duplicated, none dropped.
pub proof fn lemma_adds_accumulate(first: Heartbeats, now: Time, rest: Seq<Heartbeats>)
    ensures
        beats_after_adds(first, now, rest) == first.list@ + concat_batches(rest),
    decreases rest.len(),
{
    if rest.len() == 0 {
        assert(beats_after_adds(first, now, rest) =~= first.list@ + concat_batches(rest));
    } else {
        lemma_adds_accumulate(first, now, rest.drop_last());
        assert(beats_after_adds(first, now, rest) =~= first.list@ + concat_batches(rest));
    }
}

} // verus!
