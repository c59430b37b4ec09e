//! Contact-bounce filtering. Per key, a counter tracks how many successive
//! snapshots have disagreed with the last stable state; once it reaches the
//! threshold the state flips and exactly one event is emitted. Counters
//! reset on agreement and never pass the threshold.

use vstd::prelude::*;

use crate::scan::ScanSnapshot;
use crate::Event;
use crate::COLS;
use crate::SCAN_LEN;

verus! {

/// The debouncer's state as a mathematical value.
pub struct DebounceModel {
    pub stable: Seq<bool>,
    pub count: Seq<int>,
    pub threshold: int,
}

/// One key bit per coordinate, one counter per coordinate, counters
/// strictly below the threshold.
pub open spec fn db_wf(m: DebounceModel) -> bool {
    &&& m.stable.len() == SCAN_LEN
    &&& m.count.len() == SCAN_LEN
    &&& m.threshold >= 1
    &&& forall|i: int| 0 <= i < SCAN_LEN ==> 0 <= #[trigger] m.count[i] < m.threshold
}

/// The next stable state of one key after one snapshot.
pub open spec fn step_stable(st: bool, cnt: int, inp: bool, thr: int) -> bool {
    if inp == st {
        st
    } else if cnt + 1 >= thr {
        inp
    } else {
        st
    }
}

/// The next counter of one key after one snapshot.
pub open spec fn step_count(st: bool, cnt: int, inp: bool, thr: int) -> int {
    if inp == st {
        0
    } else if cnt + 1 >= thr {
        0
    } else {
        cnt + 1
    }
}

/// Whether this snapshot confirms a transition of one key.
pub open spec fn confirms(st: bool, cnt: int, inp: bool, thr: int) -> bool {
    inp != st && cnt + 1 >= thr
}

/// The debouncer's state after consuming one snapshot.
pub open spec fn spec_db_next(m: DebounceModel, snap: Seq<bool>) -> DebounceModel {
    DebounceModel {
        stable: Seq::new(
            SCAN_LEN as nat,
            |i: int| step_stable(m.stable[i], m.count[i], snap[i], m.threshold),
        ),
        count: Seq::new(
            SCAN_LEN as nat,
            |i: int| step_count(m.stable[i], m.count[i], snap[i], m.threshold),
        ),
        threshold: m.threshold,
    }
}

/// The event a confirmed transition of flat key `i` produces.
pub open spec fn mk_event(pressed: bool, i: int) -> Event {
    if pressed {
        Event::Press((i / COLS as int) as u8, (i % COLS as int) as u8)
    } else {
        Event::Release((i / COLS as int) as u8, (i % COLS as int) as u8)
    }
}

/// The events confirmed among flat keys `[0, n)`, in row-major order.
pub open spec fn events_upto(m: DebounceModel, snap: Seq<bool>, n: int) -> Seq<Event>
    decreases n,
{
    if n <= 0 {
        Seq::empty()
    } else if confirms(m.stable[n - 1], m.count[n - 1], snap[n - 1], m.threshold) {
        events_upto(m, snap, n - 1).push(mk_event(snap[n - 1], n - 1))
    } else {
        events_upto(m, snap, n - 1)
    }
}

/// All events one snapshot confirms, in row-major order.
pub open spec fn spec_db_events(m: DebounceModel, snap: Seq<bool>) -> Seq<Event> {
    events_upto(m, snap, SCAN_LEN as int)
}

/// The debouncer's state after consuming the same snapshot `k` times.
pub open spec fn spec_db_iter(m: DebounceModel, snap: Seq<bool>, k: nat) -> DebounceModel
    decreases k,
{
    if k == 0 {
        m
    } else {
        spec_db_next(spec_db_iter(m, snap, (k - 1) as nat), snap)
    }
}

/// Filters one half's successive snapshots into confirmed press and
/// release events.
pub struct Debouncer {
    stable: Vec<bool>,
    count: Vec<u16>,
    threshold: u16,
}

impl Debouncer {
    /// This debouncer's state as a mathematical value.
    pub closed spec fn model(&self) -> DebounceModel {
        DebounceModel {
            stable: self.stable@,
            count: self.count@.map_values(|c: u16| c as int),
            threshold: self.threshold as int,
        }
    }

    pub open spec fn wf(&self) -> bool {
        db_wf(self.model())
    }

    /// A debouncer that regards every key as released, with the given
    /// confirmation threshold.
    pub fn new(threshold: u16) -> (d: Debouncer)
        requires
            threshold >= 1,
        ensures
            d.wf(),
            d.model().threshold == threshold,
            forall|i: int| 0 <= i < SCAN_LEN ==> !d.model().stable[i],
            forall|i: int| 0 <= i < SCAN_LEN ==> #[trigger] d.model().count[i] == 0,
    {
        let mut stable: Vec<bool> = Vec::new();
        let mut count: Vec<u16> = Vec::new();
        let mut i: usize = 0;
        while i < SCAN_LEN
            invariant
                i <= SCAN_LEN,
                stable@.len() == i,
                count@.len() == i,
                forall|j: int| 0 <= j < i ==> !stable@[j],
                forall|j: int| 0 <= j < i ==> #[trigger] count@[j] == 0,
            decreases SCAN_LEN - i,
        {
            stable.push(false);
            count.push(0);
            i = i + 1;
        }
        Debouncer { stable, count, threshold }
    }

    /// Consumes one snapshot; emits exactly the transitions it confirms,
    /// in row-major order, and advances every key's counter.
    pub fn events(&mut self, snap: &ScanSnapshot) -> (evs: Vec<Event>)
        requires
            old(self).wf(),
            snap.wf(),
        ensures
            final(self).wf(),
            final(self).model() == spec_db_next(old(self).model(), snap@),
            evs@ == spec_db_events(old(self).model(), snap@),
            forall|j: int| 0 <= j < evs@.len() ==> (#[trigger] evs@[j]).row() < 4 && evs@[j].col()
                < 7,
    {
        let ghost m0 = self.model();
        let mut evs: Vec<Event> = Vec::new();
        let mut i: usize = 0;
        while i < SCAN_LEN
            invariant
                snap.wf(),
                db_wf(m0),
                i <= SCAN_LEN,
                self.stable@.len() == SCAN_LEN,
                self.count@.len() == SCAN_LEN,
                self.threshold == m0.threshold,
                forall|j: int| i <= j < SCAN_LEN ==> self.stable@[j] == m0.stable[j],
                forall|j: int|
                    i <= j < SCAN_LEN ==> #[trigger] self.count@[j] as int == m0.count[j],
                forall|j: int|
                    0 <= j < i ==> self.stable@[j] == step_stable(
                        m0.stable[j],
                        m0.count[j],
                        snap@[j],
                        m0.threshold,
                    ),
                forall|j: int|
                    0 <= j < i ==> #[trigger] self.count@[j] as int == step_count(
                        m0.stable[j],
                        m0.count[j],
                        snap@[j],
                        m0.threshold,
                    ),
                evs@ == events_upto(m0, snap@, i as int),
                forall|j: int| 0 <= j < evs@.len() ==> (#[trigger] evs@[j]).row() < 4
                    && evs@[j].col() < 7,
            decreases SCAN_LEN - i,
        {
            let st = self.stable[i];
            let cnt = self.count[i];
            let inp = snap.get_flat(i);
            if inp == st {
                self.count.set(i, 0);
            } else if cnt + 1 >= self.threshold {
                self.stable.set(i, inp);
                self.count.set(i, 0);
                let ev = if inp {
                    Event::Press((i / COLS) as u8, (i % COLS) as u8)
                } else {
                    Event::Release((i / COLS) as u8, (i % COLS) as u8)
                };
                proof {
                    assert((i as int) / (COLS as int) < 4 && (i as int) % (COLS as int) < 7);
                    assert((i as int) / (COLS as int) >= 0 && (i as int) % (COLS as int) >= 0);
                    assert(ev == mk_event(snap@[i as int], i as int));
                }
                evs.push(ev);
            } else {
                self.count.set(i, cnt + 1);
            }
            i = i + 1;
        }
        proof {
            assert(self.model().stable =~= spec_db_next(m0, snap@).stable);
            assert(self.model().count =~= spec_db_next(m0, snap@).count);
        }
        evs
    }
}

/// No key confirms among `[0, n)`: no events.
proof fn lemma_events_none(m: DebounceModel, snap: Seq<bool>, n: int)
    requires
        forall|i: int|
            0 <= i < n ==> !confirms(m.stable[i], #[trigger] m.count[i], snap[i], m.threshold),
    ensures
        events_upto(m, snap, n) == Seq::<Event>::empty(),
    decreases n,
{
    if n > 0 {
        lemma_events_none(m, snap, n - 1);
    }
}

/// Exactly the key `c` confirms: exactly one event, for `c`.
proof fn lemma_events_single(m: DebounceModel, snap: Seq<bool>, c: int, n: int)
    requires
        0 <= c,
        confirms(m.stable[c], m.count[c], snap[c], m.threshold),
        forall|i: int|
            0 <= i < n && i != c ==> !confirms(
                m.stable[i],
                #[trigger] m.count[i],
                snap[i],
                m.threshold,
            ),
    ensures
        events_upto(m, snap, n) == if c < n {
            seq![mk_event(snap[c], c)]
        } else {
            Seq::<Event>::empty()
        },
    decreases n,
{
    if n > 0 {
        lemma_events_single(m, snap, c, n - 1);
        if c >= n - 1 && c < n {
            assert(events_upto(m, snap, n - 1) == Seq::<Event>::empty());
            assert(Seq::<Event>::empty().push(mk_event(snap[c], c)) =~= seq![
                mk_event(snap[c], c),
            ]);
        }
    }
}

/// Debounce stability, short run: from a settled state, fewer consecutive
/// differing snapshots than the threshold produce no event at all; the
/// counters just track the run's length where the snapshot differs.
pub proof fn lemma_debounce_short_run(m: DebounceModel, snap: Seq<bool>, k: nat)
    requires
        db_wf(m),
        snap.len() == SCAN_LEN,
        forall|i: int| 0 <= i < SCAN_LEN ==> #[trigger] m.count[i] == 0,
        k < m.threshold,
    ensures
        db_wf(spec_db_iter(m, snap, k)),
        spec_db_iter(m, snap, k).stable == m.stable,
        spec_db_iter(m, snap, k).threshold == m.threshold,
        forall|i: int|
            0 <= i < SCAN_LEN ==> #[trigger] spec_db_iter(m, snap, k).count[i] == (if snap[i]
                != m.stable[i] {
                k as int
            } else {
                0
            }),
        forall|t: nat|
            t < k ==> spec_db_events(#[trigger] spec_db_iter(m, snap, t), snap) == Seq::<
                Event,
            >::empty(),
    decreases k,
{
    if k > 0 {
        lemma_debounce_short_run(m, snap, (k - 1) as nat);
        let prev = spec_db_iter(m, snap, (k - 1) as nat);
        assert(forall|i: int|
            0 <= i < SCAN_LEN ==> !confirms(
                prev.stable[i],
                #[trigger] prev.count[i],
                snap[i],
                prev.threshold,
            ));
        lemma_events_none(prev, snap, SCAN_LEN as int);
        assert(spec_db_iter(m, snap, k).stable =~= m.stable);
    }
}

/// Debounce stability: an isolated glitch — `k` differing snapshots for
/// any `k` below the threshold, then the settled snapshot again — emits
/// no event at any step and returns the debouncer to its settled state.
pub proof fn lemma_debounce_glitch_recovers(m: DebounceModel, snap: Seq<bool>, k: nat)
    requires
        db_wf(m),
        snap.len() == SCAN_LEN,
        forall|i: int| 0 <= i < SCAN_LEN ==> #[trigger] m.count[i] == 0,
        k < m.threshold,
    ensures
        forall|t: nat|
            t < k ==> spec_db_events(#[trigger] spec_db_iter(m, snap, t), snap) == Seq::<
                Event,
            >::empty(),
        spec_db_events(spec_db_iter(m, snap, k), m.stable) == Seq::<Event>::empty(),
        spec_db_next(spec_db_iter(m, snap, k), m.stable) == m,
{
    lemma_debounce_short_run(m, snap, k);
    let after = spec_db_iter(m, snap, k);
    assert(forall|i: int|
        0 <= i < SCAN_LEN ==> !confirms(
            after.stable[i],
            #[trigger] after.count[i],
            m.stable[i],
            after.threshold,
        ));
    lemma_events_none(after, m.stable, SCAN_LEN as int);
    assert(spec_db_next(after, m.stable).stable =~= m.stable);
    assert(spec_db_next(after, m.stable).count =~= m.count);
}

/// Debounce confirmation: from a settled state, exactly `threshold`
/// consecutive snapshots that differ at a single key emit nothing for the
/// first `threshold - 1` of them and exactly one event — for that key —
/// at the last, leaving the debouncer settled in the new state.
pub proof fn lemma_debounce_confirms(m: DebounceModel, snap: Seq<bool>, c: int)
    requires
        db_wf(m),
        snap.len() == SCAN_LEN,
        forall|i: int| 0 <= i < SCAN_LEN ==> #[trigger] m.count[i] == 0,
        0 <= c < SCAN_LEN,
        snap[c] != m.stable[c],
        forall|i: int| 0 <= i < SCAN_LEN && i != c ==> #[trigger] snap[i] == m.stable[i],
    ensures
        forall|t: nat|
            t + 1 < m.threshold ==> spec_db_events(#[trigger] spec_db_iter(m, snap, t), snap)
                == Seq::<Event>::empty(),
        spec_db_events(spec_db_iter(m, snap, (m.threshold - 1) as nat), snap) == seq![
            mk_event(snap[c], c),
        ],
        spec_db_next(spec_db_iter(m, snap, (m.threshold - 1) as nat), snap).stable
            == m.stable.update(c, snap[c]),
        forall|i: int|
            0 <= i < SCAN_LEN ==> #[trigger] spec_db_next(
                spec_db_iter(m, snap, (m.threshold - 1) as nat),
                snap,
            ).count[i] == 0,
{
    let k = (m.threshold - 1) as nat;
    lemma_debounce_short_run(m, snap, k);
    let last = spec_db_iter(m, snap, k);
    assert(confirms(last.stable[c], last.count[c], snap[c], last.threshold));
    assert(forall|i: int|
        0 <= i < SCAN_LEN && i != c ==> !confirms(
            last.stable[i],
            #[trigger] last.count[i],
            snap[i],
            last.threshold,
        ));
    lemma_events_single(last, snap, c, SCAN_LEN as int);
    assert(spec_db_next(last, snap).stable =~= m.stable.update(c, snap[c]));
}

} // verus!
