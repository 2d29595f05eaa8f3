//! Alignment of the per-anchor report queues into batches that share one
//! trigger timestamp.
//!
//! Among several trigger timestamps that every queue holds, the one that
//! comes first in the first queue, front to back, is matched.

use crate::proto::RangeReport;
use std::collections::VecDeque;
use vstd::prelude::*;

verus! {

/// The queues as sequences of reports, front first, by anchor index.
pub open spec fn queues(fifos: Vec<VecDeque<RangeReport>>) -> Seq<Seq<RangeReport>> {
    Seq::new(fifos@.len(), |i: int| fifos@[i]@)
}

/// The position at or after `from` of the first report of `q` keyed `key`,
/// or the length of `q` when there is none.
pub open spec fn key_index(q: Seq<RangeReport>, key: u64, from: int) -> int
    decreases q.len() - from,
{
    if from >= q.len() {
        q.len() as int
    } else if q[from].trigger_txts == key {
        from
    } else {
        key_index(q, key, from + 1)
    }
}

/// Whether every queue holds a report keyed `key`.
pub open spec fn in_every_queue(qs: Seq<Seq<RangeReport>>, key: u64) -> bool {
    forall|i: int| 0 <= i < qs.len() ==> key_index(#[trigger] qs[i], key, 0) < qs[i].len()
}

/// The position at or after `from` of the first report of the first queue
/// whose key every queue holds, or the length of the first queue when
/// there is none. There must be a first queue.
pub open spec fn match_index(qs: Seq<Seq<RangeReport>>, from: int) -> int
    decreases qs[0].len() - from,
{
    if from >= qs[0].len() {
        qs[0].len() as int
    } else if in_every_queue(qs, qs[0][from].trigger_txts) {
        from
    } else {
        match_index(qs, from + 1)
    }
}

/// Whether a batch can be drawn: there is a queue, and the first queue
/// holds a report whose key every queue holds.
pub open spec fn can_synchronize(qs: Seq<Seq<RangeReport>>) -> bool {
    qs.len() > 0 && match_index(qs, 0) < qs[0].len()
}

/// The key of the batch that is drawn when one can be.
pub open spec fn match_key(qs: Seq<Seq<RangeReport>>) -> u64 {
    qs[0][match_index(qs, 0)].trigger_txts
}

/// What drawing the batch keyed `key` leaves of the queue `q`: the
/// reports behind the first one keyed `key`.
pub open spec fn rest_after(q: Seq<RangeReport>, key: u64) -> Seq<RangeReport> {
    q.skip(key_index(q, key, 0) + 1)
}

/// The batch that is drawn from `qs`: from each queue its first report
/// with the matched key, by anchor index.
pub open spec fn batch_of(qs: Seq<Seq<RangeReport>>) -> Seq<RangeReport> {
    Seq::new(qs.len(), |i: int| qs[i][key_index(qs[i], match_key(qs), 0)])
}

/// The queues that drawing a batch from `qs` leaves.
pub open spec fn after_batch(qs: Seq<Seq<RangeReport>>) -> Seq<Seq<RangeReport>> {
    Seq::new(qs.len(), |i: int| rest_after(qs[i], match_key(qs)))
}

/// The batches that drawing from `qs` until nothing matches gives, in the
/// order drawn.
pub open spec fn drained_batches(qs: Seq<Seq<RangeReport>>) -> Seq<Seq<RangeReport>>
    decreases qs[0].len(),
{
    if can_synchronize(qs) && after_batch(qs)[0].len() < qs[0].len() {
        seq![batch_of(qs)] + drained_batches(after_batch(qs))
    } else {
        Seq::empty()
    }
}

/// The queues that drawing from `qs` until nothing matches leaves.
pub open spec fn drained_queues(qs: Seq<Seq<RangeReport>>) -> Seq<Seq<RangeReport>>
    decreases qs[0].len(),
{
    if can_synchronize(qs) && after_batch(qs)[0].len() < qs[0].len() {
        drained_queues(after_batch(qs))
    } else {
        qs
    }
}

/// The batches of `batches` as sequences.
pub open spec fn batch_views(batches: Vec<Vec<RangeReport>>) -> Seq<Seq<RangeReport>> {
    Seq::new(batches@.len(), |i: int| batches@[i]@)
}

/// `key_index` lies between `from` and the length, points at a report
/// keyed `key` when inside the queue, and passes none on its way.
pub proof fn lemma_key_index(q: Seq<RangeReport>, key: u64, from: int)
    requires
        0 <= from <= q.len(),
    ensures
        from <= key_index(q, key, from) <= q.len(),
        key_index(q, key, from) < q.len() ==> q[key_index(q, key, from)].trigger_txts == key,
        forall|i: int| from <= i < key_index(q, key, from) ==> q[i].trigger_txts != key,
    decreases q.len() - from,
{
    if from < q.len() && q[from].trigger_txts != key {
        lemma_key_index(q, key, from + 1);
    }
}

/// `match_index` lies between `from` and the length of the first queue,
/// points at a report whose key every queue holds when inside it, and
/// passes no such report on its way.
pub proof fn lemma_match_index(qs: Seq<Seq<RangeReport>>, from: int)
    requires
        qs.len() > 0,
        0 <= from <= qs[0].len(),
    ensures
        from <= match_index(qs, from) <= qs[0].len(),
        match_index(qs, from) < qs[0].len() ==> in_every_queue(
            qs,
            qs[0][match_index(qs, from)].trigger_txts,
        ),
        forall|i: int|
            from <= i < match_index(qs, from) ==> !in_every_queue(qs, qs[0][i].trigger_txts),
    decreases qs[0].len() - from,
{
    if from < qs[0].len() && !in_every_queue(qs, qs[0][from].trigger_txts) {
        lemma_match_index(qs, from + 1);
    }
}

/// A batch can be drawn exactly when some key is held by every queue of a
/// non-empty set of queues.
pub proof fn lemma_can_synchronize(qs: Seq<Seq<RangeReport>>)
    ensures
        can_synchronize(qs) <==> qs.len() > 0 && exists|key: u64| in_every_queue(qs, key),
{
    if qs.len() > 0 {
        lemma_match_index(qs, 0);
        if exists|key: u64| in_every_queue(qs, key) {
            let key = choose|key: u64| in_every_queue(qs, key);
            assert(key_index(qs[0], key, 0) < qs[0].len());
            lemma_key_index(qs[0], key, 0);
            let p = key_index(qs[0], key, 0);
            assert(qs[0][p].trigger_txts == key);
            assert(match_index(qs, 0) <= p);
        }
    }
}

/// With an empty queue among them, no batch can be drawn, whatever the
/// other queues hold.
pub proof fn lemma_empty_queue_blocks(qs: Seq<Seq<RangeReport>>, i: int)
    requires
        0 <= i < qs.len(),
        qs[i].len() == 0,
    ensures
        !can_synchronize(qs),
{
    lemma_match_index(qs, 0);
    if match_index(qs, 0) < qs[0].len() {
        let key = match_key(qs);
        assert(key_index(qs[i], key, 0) < qs[i].len());
    }
}

/// Finds the first report of `q` keyed `key`.
fn find_key(q: &VecDeque<RangeReport>, key: u64) -> (p: usize)
    ensures
        p == key_index(q@, key, 0),
        p <= q@.len(),
{
    let n = q.len();
    let mut i: usize = 0;
    proof {
        lemma_key_index(q@, key, 0);
    }
    while i < n
        invariant
            i <= n,
            n == q@.len(),
            key_index(q@, key, 0) == key_index(q@, key, i as int),
        decreases n - i,
    {
        if q[i].trigger_txts == key {
            return i;
        }
        i += 1;
    }
    i
}

/// Tells whether every queue holds a report keyed `key`.
fn held_by_all(fifos: &Vec<VecDeque<RangeReport>>, key: u64) -> (b: bool)
    ensures
        b == in_every_queue(queues(*fifos), key),
{
    let n = fifos.len();
    let mut i: usize = 0;
    while i < n
        invariant
            i <= n,
            n == fifos@.len(),
            forall|k: int|
                0 <= k < i ==> key_index(#[trigger] queues(*fifos)[k], key, 0) < queues(
                    *fifos,
                )[k].len(),
        decreases n - i,
    {
        let p = find_key(&fifos[i], key);
        if p >= fifos[i].len() {
            assert(queues(*fifos)[i as int] == fifos@[i as int]@);
            return false;
        }
        assert(queues(*fifos)[i as int] == fifos@[i as int]@);
        i += 1;
    }
    true
}

/// Finds the first report of the first queue whose key every queue holds.
fn find_match(fifos: &Vec<VecDeque<RangeReport>>) -> (p: usize)
    requires
        fifos@.len() > 0,
    ensures
        p == match_index(queues(*fifos), 0),
        p <= fifos@[0]@.len(),
{
    let n = fifos[0].len();
    let mut i: usize = 0;
    proof {
        lemma_match_index(queues(*fifos), 0);
    }
    while i < n
        invariant
            i <= n,
            fifos@.len() > 0,
            n == fifos@[0]@.len(),
            queues(*fifos)[0] == fifos@[0]@,
            match_index(queues(*fifos), 0) == match_index(queues(*fifos), i as int),
        decreases n - i,
    {
        if held_by_all(fifos, fifos[0][i].trigger_txts) {
            return i;
        }
        i += 1;
    }
    i
}

/// Discards the first `count` reports of `q`.
fn drop_front(q: &mut VecDeque<RangeReport>, count: usize)
    requires
        count <= old(q)@.len(),
    ensures
        final(q)@ == old(q)@.skip(count as int),
{
    let mut i: usize = 0;
    assert(q@ =~= old(q)@.skip(0));
    while i < count
        invariant
            i <= count <= old(q)@.len(),
            q@ == old(q)@.skip(i as int),
        decreases count - i,
    {
        let _ = q.pop_front();
        assert(q@ =~= old(q)@.skip(i + 1));
        i += 1;
    }
}

/// Draws one batch from the queues, if one can be drawn.
///
/// Without a batch the queues stay as they are. With one, its key is the
/// first in the first queue that every queue holds; each queue loses its
/// reports up to and including the first one with that key, and the batch
/// holds those first ones by anchor index.
pub fn synchronize(serial_fifos: &mut Vec<VecDeque<RangeReport>>) -> (r: Option<Vec<RangeReport>>)
    ensures
        final(serial_fifos)@.len() == old(serial_fifos)@.len(),
        (exists|i: int| 0 <= i < old(serial_fifos)@.len() && old(serial_fifos)@[i]@.len() == 0)
            ==> r.is_none(),
        match r {
            None => !can_synchronize(queues(*old(serial_fifos))) && queues(*final(serial_fifos))
                == queues(*old(serial_fifos)),
            Some(batch) => {
                let qs = queues(*old(serial_fifos));
                &&& can_synchronize(qs)
                &&& batch@ == batch_of(qs)
                &&& queues(*final(serial_fifos)) == after_batch(qs)
                &&& forall|i: int| 0 <= i < batch@.len() ==> batch@[i].trigger_txts == match_key(qs)
            },
        },
{
    let n = serial_fifos.len();
    if n == 0 {
        return None;
    }
    let ghost qs = queues(*serial_fifos);
    proof {
        if exists|i: int| 0 <= i < serial_fifos@.len() && serial_fifos@[i]@.len() == 0 {
            let i = choose|i: int| 0 <= i < serial_fifos@.len() && serial_fifos@[i]@.len() == 0;
            assert(qs[i] == serial_fifos@[i]@);
            lemma_empty_queue_blocks(qs, i);
        }
    }
    let at = find_match(serial_fifos);
    if at >= serial_fifos[0].len() {
        assert(qs[0] == serial_fifos@[0]@);
        return None;
    }
    assert(qs[0] == serial_fifos@[0]@);
    let key = serial_fifos[0][at].trigger_txts;
    proof {
        lemma_match_index(qs, 0);
    }
    let mut batch: Vec<RangeReport> = Vec::new();
    let mut i: usize = 0;
    while i < n
        invariant
            i <= n,
            n == serial_fifos@.len(),
            n == qs.len(),
            batch@.len() == i,
            in_every_queue(qs, key),
            forall|k: int| 0 <= k < i ==> batch@[k] == qs[k][key_index(qs[k], key, 0)],
            forall|k: int| 0 <= k < i ==> (#[trigger] serial_fifos@[k])@ == rest_after(qs[k], key),
            forall|k: int| i <= k < n ==> (#[trigger] serial_fifos@[k])@ == qs[k],
        decreases n - i,
    {
        proof {
            lemma_key_index(qs[i as int], key, 0);
        }
        let q = &mut serial_fifos[i];
        let p = find_key(q, key);
        drop_front(q, p);
        let head = q.pop_front();
        match head {
            Some(report) => batch.push(report),
            None => {},
        }
        i += 1;
    }
    proof {
        assert(batch@ =~= batch_of(qs));
        assert(queues(*serial_fifos) =~= after_batch(qs));
        assert forall|k: int| 0 <= k < batch@.len() implies batch@[k].trigger_txts == key by {
            lemma_key_index(qs[k], key, 0);
        }
    }
    Some(batch)
}

/// Drawing a batch shortens every queue.
pub proof fn lemma_batch_shortens(qs: Seq<Seq<RangeReport>>, i: int)
    requires
        can_synchronize(qs),
        0 <= i < qs.len(),
    ensures
        after_batch(qs)[i].len() < qs[i].len(),
{
    lemma_match_index(qs, 0);
    lemma_key_index(qs[i], match_key(qs), 0);
}

/// After draining, nothing more can be drawn.
pub proof fn lemma_drained_is_exhausted(qs: Seq<Seq<RangeReport>>)
    ensures
        !can_synchronize(drained_queues(qs)),
    decreases qs[0].len(),
{
    if can_synchronize(qs) {
        lemma_batch_shortens(qs, 0);
        lemma_drained_is_exhausted(after_batch(qs));
    }
}

/// Draws batches until none can be drawn, and returns them in the order
/// drawn.
pub fn drain(serial_fifos: &mut Vec<VecDeque<RangeReport>>) -> (batches: Vec<Vec<RangeReport>>)
    ensures
        final(serial_fifos)@.len() == old(serial_fifos)@.len(),
        batch_views(batches) == drained_batches(queues(*old(serial_fifos))),
        queues(*final(serial_fifos)) == drained_queues(queues(*old(serial_fifos))),
        !can_synchronize(queues(*final(serial_fifos))),
{
    let mut batches: Vec<Vec<RangeReport>> = Vec::new();
    let ghost start = queues(*serial_fifos);
    assert(batch_views(batches) + drained_batches(start) =~= drained_batches(start));
    loop
        invariant
            serial_fifos@.len() == old(serial_fifos)@.len(),
            batch_views(batches) + drained_batches(queues(*serial_fifos)) == drained_batches(start),
            drained_queues(queues(*serial_fifos)) == drained_queues(start),
            start == queues(*old(serial_fifos)),
        decreases
                (if serial_fifos@.len() > 0 {
                    queues(*serial_fifos)[0].len()
                } else {
                    0
                }),
    {
        let ghost qs = queues(*serial_fifos);
        let ghost drawn = batch_views(batches);
        match synchronize(serial_fifos) {
            None => {
                proof {
                    assert(batch_views(batches) =~= drained_batches(start));
                }
                return batches;
            },
            Some(batch) => {
                batches.push(batch);
                proof {
                    lemma_batch_shortens(qs, 0);
                    assert(batch_views(batches) =~= drawn + seq![batch_of(qs)]);
                    assert(batch_views(batches) + drained_batches(after_batch(qs)) =~= drawn
                        + drained_batches(qs));
                }
            },
        }
    }
}

/// The per-anchor queues of pending range reports.
pub struct Synchronizer {
    pub fifos: Vec<VecDeque<RangeReport>>,
}

impl Synchronizer {
    /// The queues as sequences of reports, by anchor index.
    pub open spec fn view(&self) -> Seq<Seq<RangeReport>> {
        queues(self.fifos)
    }

    /// A synchronizer with `anchors` empty queues.
    pub fn new(anchors: usize) -> (s: Synchronizer)
        ensures
            s@ == Seq::new(anchors as nat, |i: int| Seq::<RangeReport>::empty()),
    {
        let mut fifos: Vec<VecDeque<RangeReport>> = Vec::new();
        let mut i: usize = 0;
        while i < anchors
            invariant
                i <= anchors,
                fifos@.len() == i,
                forall|k: int| 0 <= k < i ==> (#[trigger] fifos@[k])@ == Seq::<RangeReport>::empty(),
            decreases anchors - i,
        {
            fifos.push(VecDeque::new());
            i += 1;
        }
        let s = Synchronizer { fifos };
        assert(s@ =~= Seq::new(anchors as nat, |i: int| Seq::<RangeReport>::empty()));
        s
    }

    /// Appends `report` to the queue of anchor `anchor_index`.
    pub fn push(&mut self, anchor_index: usize, report: RangeReport)
        requires
            anchor_index < old(self)@.len(),
        ensures
            final(self)@ == old(self)@.update(
                anchor_index as int,
                old(self)@[anchor_index as int].push(report),
            ),
    {
        let q = &mut self.fifos[anchor_index];
        q.push_back(report);
        assert(self@ =~= old(self)@.update(
            anchor_index as int,
            old(self)@[anchor_index as int].push(report),
        ));
    }

    /// Draws batches until none can be drawn; see `drain`.
    pub fn drain(&mut self) -> (batches: Vec<Vec<RangeReport>>)
        ensures
            final(self)@.len() == old(self)@.len(),
            batch_views(batches) == drained_batches(old(self)@),
            final(self)@ == drained_queues(old(self)@),
            !can_synchronize(final(self)@),
    {
        drain(&mut self.fifos)
    }

    /// Draws one batch, if one can be drawn; see `synchronize`.
    pub fn try_synchronize(&mut self) -> (r: Option<Vec<RangeReport>>)
        ensures
            final(self)@.len() == old(self)@.len(),
            match r {
                None => !can_synchronize(old(self)@) && final(self)@ == old(self)@,
                Some(batch) => {
                    &&& can_synchronize(old(self)@)
                    &&& batch@ == batch_of(old(self)@)
                    &&& final(self)@ == after_batch(old(self)@)
                },
            },
    {
        synchronize(&mut self.fifos)
    }
}

} // verus!
