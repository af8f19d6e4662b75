use vstd::prelude::*;

verus! {

use crate::Config;
use crate::Time;
use crate::group::group_adjacent;
use crate::group::groups_view;
use crate::group::pairs_view;
use crate::group::run_groups;
use crate::group::unwrap_groups;
use crate::heartbeat::Heartbeat;
use crate::heartbeat::Heartbeats;
use crate::heartbeat::clone_tag;
use crate::heartbeat::tag_view;
use crate::tree::Tree;
use crate::tree::split_segments;
use crate::tree::times_at;
use vstd::utf8::encode_utf8;

/// The summary record a consumed buffer yields: the buffer's time window.
pub struct Summary {
    pub from_time: Time,
    pub to_time: Time,
}

/// The event times of the heartbeats whose pathline splits into exactly the
/// segments `p`, in arrival order.
pub open spec fn path_times(beats: Seq<Heartbeat>, p: Seq<Seq<u8>>) -> Seq<Time>
    decreases beats.len(),
{
    if beats.len() == 0 {
        Seq::empty()
    } else {
        let init = path_times(beats.drop_last(), p);
        if split_segments(encode_utf8(beats.last().pathline@)) == p {
            init.push(beats.last().time)
        } else {
            init
        }
    }
}

/// The heartbeats keyed by their `domain` tag, in arrival order.
pub open spec fn domain_pairs(s: Seq<Heartbeat>) -> Seq<(Option<Seq<char>>, Time)> {
    s.map_values(|h: Heartbeat| (tag_view(h.domain), h.time))
}

/// The heartbeats keyed by their `user_agent` tag, in arrival order.
pub open spec fn agent_pairs(s: Seq<Heartbeat>) -> Seq<(Option<Seq<char>>, Time)> {
    s.map_values(|h: Heartbeat| (tag_view(h.user_agent), h.time))
}

/// The per-user buffer: the observed time window and the ordered list of
/// buffered heartbeats (insertion order = arrival order).
#[derive(Clone)]
pub struct Beatbuffer {
    /// Lower bound of the observed time window.
    pub start: Time,
    /// Upper bound of the observed time window.
    pub end: Time,
    /// Buffered heartbeats, in arrival order.
    pub beats: Vec<Heartbeat>,
}

/// The smallest event time in `s`; `0` when `s` is empty.
pub open spec fn spec_min_time(s: Seq<Heartbeat>) -> Time
    decreases s.len(),
{
    if s.len() == 0 {
        0
    } else {
        let t = s.last().time;
        let rest = spec_min_time(s.drop_last());
        if s.len() == 1 {
            t
        } else if t < rest {
            t
        } else {
            rest
        }
    }
}

/// The largest event time in `s`; `0` when `s` is empty.
pub open spec fn spec_max_time(s: Seq<Heartbeat>) -> Time
    decreases s.len(),
{
    if s.len() == 0 {
        0
    } else {
        let t = s.last().time;
        let rest = spec_max_time(s.drop_last());
        if s.len() == 1 {
            t
        } else if t > rest {
            t
        } else {
            rest
        }
    }
}

/// The window's lower bound after a batch lands on an existing buffer:
/// widened to the batch's earliest event time where that is earlier.
pub open spec fn spec_added_start(b: Beatbuffer, beats: Heartbeats) -> Time {
    if beats.list@.len() > 0 && spec_min_time(beats.list@) < b.start {
        spec_min_time(beats.list@)
    } else {
        b.start
    }
}

/// The window's upper bound after a batch lands on an existing buffer:
/// widened to the batch's latest event time where that is later.
pub open spec fn spec_added_end(b: Beatbuffer, beats: Heartbeats) -> Time {
    if beats.list@.len() > 0 && spec_max_time(beats.list@) > b.end {
        spec_max_time(beats.list@)
    } else {
        b.end
    }
}

/// In a non-empty list the smallest event time is no larger than the
/// largest.
pub proof fn lemma_min_le_max(s: Seq<Heartbeat>)
    requires
        s.len() > 0,
    ensures
        spec_min_time(s) <= spec_max_time(s),
    decreases s.len(),
{
    if s.len() > 1 {
        lemma_min_le_max(s.drop_last());
    }
}

/// The smallest and largest event time of a non-empty list.
fn bounds_of(list: &Vec<Heartbeat>) -> (r: (Time, Time))
    requires
        list@.len() > 0,
    ensures
        r.0 == spec_min_time(list@),
        r.1 == spec_max_time(list@),
{
    let mut min: Time = list[0].time;
    let mut max: Time = list[0].time;
    let mut i: usize = 1;
    assert(list@.take(1).drop_last() =~= Seq::<Heartbeat>::empty());
    while i < list.len()
        invariant
            1 <= i <= list@.len(),
            min == spec_min_time(list@.take(i as int)),
            max == spec_max_time(list@.take(i as int)),
        decreases list@.len() - i,
    {
        assert(list@.take(i + 1).drop_last() =~= list@.take(i as int));
        assert(list@.take(i + 1).last() == list@[i as int]);
        if list[i].time < min {
            min = list[i].time;
        }
        if list[i].time > max {
            max = list[i].time;
        }
        i += 1;
    }
    assert(list@.take(list@.len() as int) =~= list@);
    (min, max)
}

impl Beatbuffer {
    /// The buffer's well-formedness: the time window is a proper interval.
    pub open spec fn wf(self) -> bool {
        self.start <= self.end
    }

    /// The buffer a first batch creates: its heartbeats in arrival order,
    /// the window spanning the smallest to the largest observed event
    /// time — deliberately `min..max`, so the window covers every buffered
    /// event from the start. An empty batch yields the degenerate window
    /// `[now, now]`.
    pub open spec fn spec_from_batch(batch: Heartbeats, now: Time) -> Beatbuffer {
        if batch.list@.len() == 0 {
            Beatbuffer { start: now, end: now, beats: batch.list }
        } else {
            Beatbuffer {
                start: spec_min_time(batch.list@),
                end: spec_max_time(batch.list@),
                beats: batch.list,
            }
        }
    }

    /// Creates the buffer for the first batch seen for a user. `now` is the
    /// caller's clock reading, used only when the batch is empty.
    pub fn from_batch(batch: Heartbeats, now: Time) -> (b: Beatbuffer)
        ensures
            b == Self::spec_from_batch(batch, now),
            b.wf(),
    {
        let list = batch.list;
        if list.len() == 0 {
            Beatbuffer { start: now, end: now, beats: list }
        } else {
            let (min, max) = bounds_of(&list);
            proof {
                lemma_min_le_max(list@);
            }
            Beatbuffer { start: min, end: max, beats: list }
        }
    }

    /// Creates the buffer for a first batch, reading the process clock for
    /// the degenerate window of an empty batch. For a non-empty batch the
    /// clock reading is irrelevant and the result is exactly
    /// `from_batch`'s; for an empty one only the window's degeneracy is
    /// known, since the clock may read anything.
    pub fn from_batch_now(batch: Heartbeats) -> (b: Beatbuffer)
        ensures
            b.beats@ == batch.list@,
            batch.list@.len() > 0 ==> b == Self::spec_from_batch(
                batch,
                b.start,
            ) && b.start == spec_min_time(batch.list@) && b.end == spec_max_time(batch.list@),
            batch.list@.len() == 0 ==> b.start == b.end,
            b.wf(),
    {
        let now = crate::clock::current_time();
        Beatbuffer::from_batch(batch, now)
    }

    /// Appends a batch's heartbeats, preserving arrival order, and widens
    /// the time window to cover the appended events. Widening — rather
    /// than keeping only the creating batch's bounds — is deliberate: the
    /// window is meant to span every buffered event, and the span
    /// threshold is meant to fire as a buffer ages across batches.
    pub fn add(&mut self, beats: Heartbeats)
        requires
            old(self).wf(),
        ensures
            final(self).beats@ == old(self).beats@ + beats.list@,
            final(self).start == spec_added_start(*old(self), beats),
            final(self).end == spec_added_end(*old(self), beats),
            final(self).wf(),
    {
        let mut list = beats.list;
        if list.len() > 0 {
            let (min, max) = bounds_of(&list);
            proof {
                lemma_min_le_max(list@);
            }
            if min < self.start {
                self.start = min;
            }
            if max > self.end {
                self.end = max;
            }
        }
        self.beats.append(&mut list);
    }

    /// Readiness for eviction: an empty buffer is never full; a non-empty
    /// one is full exactly when the count reaches `max_length` or the
    /// window's span reaches `max_time`.
    pub open spec fn spec_is_full(self, cfg: Config) -> bool {
        self.beats@.len() != 0 && (self.beats@.len() >= cfg.max_length || self.end - self.start
            >= cfg.max_time)
    }

    /// Consumes the buffer and groups its event times by contiguous runs of
    /// equal `domain` tags, in arrival order; a run's missing tag is
    /// reported as the empty string. A tag value that reappears after an
    /// intervening different value starts a new, separate group.
    pub fn into_domains(self) -> (r: Vec<(String, Vec<Time>)>)
        ensures
            groups_view(r@) == unwrap_groups(run_groups(domain_pairs(self.beats@))),
    {
        let beats = self.beats;
        let mut pairs: Vec<(Option<String>, Time)> = Vec::new();
        let mut i: usize = 0;
        while i < beats.len()
            invariant
                pairs@.len() == i <= beats@.len(),
                forall|j: int|
                    0 <= j < i ==> #[trigger] pairs@[j] == (beats@[j].domain, beats@[j].time),
            decreases beats@.len() - i,
        {
            pairs.push((clone_tag(&beats[i].domain), beats[i].time));
            i += 1;
        }
        proof {
            assert(pairs_view(pairs@) =~= domain_pairs(beats@));
        }
        group_adjacent(pairs)
    }

    /// Consumes the buffer and groups its event times by contiguous runs of
    /// equal `user_agent` tags, in arrival order; a run's missing tag is
    /// reported as the empty string. A tag value that reappears after an
    /// intervening different value starts a new, separate group.
    pub fn into_agents(self) -> (r: Vec<(String, Vec<Time>)>)
        ensures
            groups_view(r@) == unwrap_groups(run_groups(agent_pairs(self.beats@))),
    {
        let beats = self.beats;
        let mut pairs: Vec<(Option<String>, Time)> = Vec::new();
        let mut i: usize = 0;
        while i < beats.len()
            invariant
                pairs@.len() == i <= beats@.len(),
                forall|j: int|
                    0 <= j < i ==> #[trigger] pairs@[j] == (beats@[j].user_agent, beats@[j].time),
            decreases beats@.len() - i,
        {
            pairs.push((clone_tag(&beats[i].user_agent), beats[i].time));
            i += 1;
        }
        proof {
            assert(pairs_view(pairs@) =~= agent_pairs(beats@));
        }
        group_adjacent(pairs)
    }

    /// Consumes the buffer into its storage payload: a summary record
    /// carrying the buffer's time window, and a path tree built by
    /// inserting every heartbeat's pathline in arrival order, accumulating
    /// each heartbeat's event time at its path's node.
    pub fn into_payloads(self) -> (r: (Summary, Tree))
        ensures
            r.0.from_time == self.start,
            r.0.to_time == self.end,
            r.1.wf(),
            forall|p: Seq<Seq<u8>>| times_at(r.1, p) == path_times(self.beats@, p),
    {
        let summary = Summary { from_time: self.start, to_time: self.end };
        let mut tree = Tree::new();
        let beats = self.beats;
        let mut i: usize = 0;
        proof {
            assert forall|p: Seq<Seq<u8>>| times_at(tree, p) == path_times(
                beats@.take(0),
                p,
            ) by {
                assert(beats@.take(0) =~= Seq::<Heartbeat>::empty());
            }
        }
        while i < beats.len()
            invariant
                tree.wf(),
                0 <= i <= beats@.len(),
                forall|p: Seq<Seq<u8>>| times_at(tree, p) == path_times(beats@.take(i as int), p),
            decreases beats@.len() - i,
        {
            let ghost prev = tree;
            tree.insert(beats[i].pathline.as_str(), beats[i].time);
            proof {
                let sp = split_segments(encode_utf8(beats@[i as int].pathline@));
                assert forall|p: Seq<Seq<u8>>| times_at(tree, p) == path_times(
                    beats@.take(i + 1),
                    p,
                ) by {
                    assert(beats@.take(i + 1).drop_last() =~= beats@.take(i as int));
                    assert(beats@.take(i + 1).last() == beats@[i as int]);
                    if p == sp {
                        assert(times_at(tree, p) == times_at(prev, p).push(
                            beats@[i as int].time,
                        ));
                    } else {
                        assert(times_at(tree, p) == times_at(prev, p));
                    }
                }
            }
            i += 1;
        }
        proof {
            assert(beats@.take(beats@.len() as int) =~= beats@);
        }
        (summary, tree)
    }

    /// Law: an empty buffer is never full, whatever its time bounds; a
    /// non-empty one is full exactly when its count reaches the length
    /// threshold or its span reaches the time threshold — in particular, a
    /// buffer one event short of the count threshold with a sub-threshold
    /// span is not full.
    pub proof fn lemma_fullness_exact(b: Beatbuffer, cfg: Config)
        ensures
            b.spec_is_full(cfg) <==> (b.beats@.len() != 0 && (b.beats@.len() >= cfg.max_length
                || b.end - b.start >= cfg.max_time)),
            b.beats@.len() == 0 ==> !b.spec_is_full(cfg),
            b.beats@.len() < cfg.max_length && b.end - b.start < cfg.max_time ==> !b.spec_is_full(
                cfg,
            ),
    {
    }

    /// Decides readiness for eviction. No side effects.
    pub fn is_full(&self, cfg: &Config) -> (r: bool)
        ensures
            r == self.spec_is_full(*cfg),
    {
        if self.beats.len() == 0 {
            false
        } else {
            self.beats.len() >= cfg.max_length || (self.end as i128) - (self.start as i128) >= (
            cfg.max_time as i128)
        }
    }
}

impl Default for Beatbuffer {
    /// The empty buffer with the degenerate window `[0, 0]`.
    fn default() -> (b: Beatbuffer)
        ensures
            b.start == 0,
            b.end == 0,
            b.beats@ =~= Seq::<Heartbeat>::empty(),
            b.wf(),
    {
        Beatbuffer { start: 0, end: 0, beats: Vec::new() }
    }
}

} // verus!
