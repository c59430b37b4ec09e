//! The software side of the scheduling model: coordinate transforms into
//! the merged address space, the bounded queue that carries dispatch
//! requests from interrupt context to the report handler, and the compute
//! steps of the periodic tick, the inbound-frame handler and the dispatch
//! handler. A request is a confirmed event to apply, or nothing — the
//! unconditional "recompute the report" refresh every tick enqueues.

use vstd::prelude::*;

use crate::codec::decode_scan;
use crate::codec::encode_scan;
use crate::codec::spec_decode;
use crate::codec::spec_encode;
use crate::debounce::spec_db_events;
use crate::debounce::spec_db_next;
use crate::debounce::Debouncer;
use crate::layout::spec_press;
use crate::layout::LayoutModel;
use crate::layout::spec_release;
use crate::layout::spec_tick_report;
use crate::layout::spec_tick_state;
use crate::layout::event_index;
use crate::layout::Layout;
use crate::scan::ScanSnapshot;
use crate::Event;
use crate::COLS;
use crate::ROWS;

verus! {

/// The dispatch queue could not accept an event: a capacity fault that
/// callers must surface rather than swallow, since silently dropping a
/// key event is worse than failing visibly.
#[derive(Clone, Copy, Debug, PartialEq, Eq, Structural)]
pub struct QueueOverflow;

/// A bounded first-in-first-out queue of dispatch requests.
pub struct DispatchQueue {
    items: Vec<Option<Event>>,
    cap: usize,
}

impl DispatchQueue {
    /// The queued requests, oldest first.
    pub closed spec fn contents(&self) -> Seq<Option<Event>> {
        self.items@
    }

    /// The fixed capacity the queue was made with.
    pub closed spec fn capacity(&self) -> int {
        self.cap as int
    }

    pub open spec fn wf(&self) -> bool {
        self.contents().len() <= self.capacity()
    }

    /// An empty queue of the given capacity.
    pub fn new(cap: usize) -> (q: DispatchQueue)
        requires
            cap >= 1,
        ensures
            q.wf(),
            q.contents() == Seq::<Option<Event>>::empty(),
            q.capacity() == cap,
    {
        DispatchQueue { items: Vec::new(), cap }
    }

    /// How many requests are queued.
    pub fn len(&self) -> (n: usize)
        ensures
            n == self.contents().len(),
    {
        self.items.len()
    }

    /// Accepts one request unless the queue is full; a full queue is left
    /// unchanged and the fault reported.
    pub fn enqueue(&mut self, req: Option<Event>) -> (res: Result<(), QueueOverflow>)
        requires
            old(self).wf(),
        ensures
            final(self).wf(),
            final(self).capacity() == old(self).capacity(),
            res is Ok <==> old(self).contents().len() < old(self).capacity(),
            res is Ok ==> final(self).contents() == old(self).contents().push(req),
            res is Err ==> final(self).contents() == old(self).contents(),
    {
        if self.items.len() < self.cap {
            self.items.push(req);
            Ok(())
        } else {
            Err(QueueOverflow)
        }
    }

    /// Takes the oldest request, if any.
    pub fn dequeue(&mut self) -> (res: Option<Option<Event>>)
        requires
            old(self).wf(),
        ensures
            final(self).wf(),
            final(self).capacity() == old(self).capacity(),
            old(self).contents().len() == 0 ==> res is None && final(self).contents() == old(self).contents(),
            old(self).contents().len() > 0 ==> res == Some(old(self).contents()[0]) && final(self).contents() == old(self).contents().drop_first(),
    {
        if self.items.len() == 0 {
            None
        } else {
            let first = self.items.remove(0);
            proof {
                assert(self.items@ =~= old(self).items@.drop_first());
            }
            Some(first)
        }
    }

    /// Accepts a batch of requests in order, oldest first. All fit, or
    /// the ones past the capacity are refused and the fault reported;
    /// the ones before it stay queued.
    pub fn enqueue_all(&mut self, reqs: &Vec<Option<Event>>) -> (res: Result<(), QueueOverflow>)
        requires
            old(self).wf(),
        ensures
            final(self).wf(),
            final(self).capacity() == old(self).capacity(),
            res is Ok <==> old(self).contents().len() + reqs@.len() <= old(self).capacity(),
            res is Ok ==> final(self).contents() == old(self).contents() + reqs@,
            res is Err ==> final(self).contents() == old(self).contents() + reqs@.take(
                old(self).capacity() - old(self).contents().len(),
            ),
    {
        let mut i: usize = 0;
        proof {
            assert(old(self).contents() + reqs@.take(0) =~= old(self).contents());
        }
        while i < reqs.len()
            invariant
                i <= reqs@.len(),
                self.wf(),
                self.capacity() == old(self).capacity(),
                old(self).contents().len() + i <= old(self).capacity(),
                self.contents() == old(self).contents() + reqs@.take(i as int),
            decreases reqs@.len() - i,
        {
            let req = match &reqs[i] {
                Some(e) => Some(*e),
                None => None,
            };
            let res = self.enqueue(req);
            match res {
                Ok(()) => {
                    proof {
                        assert(self.contents() =~= old(self).contents() + reqs@.take(i + 1 as int));
                    }
                },
                Err(e) => {
                    proof {
                        assert(self.contents().len() == self.capacity());
                        assert(reqs@.take(self.capacity() - old(self).contents().len())
                            =~= reqs@.take(i as int));
                    }
                    return Err(e);
                },
            }
            i = i + 1;
        }
        proof {
            assert(reqs@.take(reqs@.len() as int) =~= reqs@);
        }
        Ok(())
    }
}

/// A local event's coordinate in the merged space: the local column
/// order is mirrored.
pub open spec fn spec_transform_local(e: Event) -> Event {
    match e {
        Event::Press(r, c) => Event::Press(r, (COLS - 1 - c) as u8),
        Event::Release(r, c) => Event::Release(r, (COLS - 1 - c) as u8),
    }
}

/// A remote event's coordinate in the merged space: the far half's
/// columns sit beyond the local ones.
pub open spec fn spec_transform_remote(e: Event) -> Event {
    match e {
        Event::Press(r, c) => Event::Press(r, (c + COLS) as u8),
        Event::Release(r, c) => Event::Release(r, (c + COLS) as u8),
    }
}

/// Maps a locally debounced event into the merged address space.
pub fn transform_local(e: Event) -> (r: Event)
    requires
        e.row() < ROWS,
        e.col() < COLS,
    ensures
        r == spec_transform_local(e),
        r.in_merged_space(),
{
    match e {
        Event::Press(r, c) => Event::Press(r, (COLS as u8) - 1 - c),
        Event::Release(r, c) => Event::Release(r, (COLS as u8) - 1 - c),
    }
}

/// Maps a remotely debounced event into the merged address space.
pub fn transform_remote(e: Event) -> (r: Event)
    requires
        e.row() < ROWS,
        e.col() < COLS,
    ensures
        r == spec_transform_remote(e),
        r.in_merged_space(),
{
    match e {
        Event::Press(r, c) => Event::Press(r, c + (COLS as u8)),
        Event::Release(r, c) => Event::Release(r, c + (COLS as u8)),
    }
}

/// The compute part of the periodic tick: the frame to transmit for this
/// snapshot, and the dispatch requests it gives rise to — one per
/// confirmed local event, transformed into the merged space, plus the
/// unconditional report refresh, so hold-tap timeouts are observed even
/// with no key activity.
pub fn scan_tick(db: &mut Debouncer, scan: &ScanSnapshot) -> (out: (Vec<u8>, Vec<Option<Event>>))
    requires
        old(db).wf(),
        scan.wf(),
    ensures
        final(db).wf(),
        final(db).model() == spec_db_next(old(db).model(), scan@),
        out.0@ == spec_encode(scan@),
        out.1@ == spec_db_events(old(db).model(), scan@).map_values(
            |e: Event| Some(spec_transform_local(e)),
        ).push(None),
        forall|j: int|
            0 <= j < out.1@.len() ==> (#[trigger] out.1@[j] matches Some(e)
                ==> e.in_merged_space()),
{
    let frame = encode_scan(scan);
    let events = db.events(scan);
    let mut requests: Vec<Option<Event>> = Vec::new();
    let mut i: usize = 0;
    while i < events.len()
        invariant
            i <= events@.len(),
            forall|j: int| 0 <= j < events@.len() ==> (#[trigger] events@[j]).row() < ROWS
                && events@[j].col() < COLS,
            requests@ == events@.take(i as int).map_values(
                |e: Event| Some(spec_transform_local(e)),
            ),
            forall|j: int|
                0 <= j < requests@.len() ==> (#[trigger] requests@[j] matches Some(e)
                    ==> e.in_merged_space()),
        decreases events@.len() - i,
    {
        let e = events[i];
        let t = transform_local(e);
        requests.push(Some(t));
        proof {
            assert(events@.take(i + 1 as int) =~= events@.take(i as int).push(e));
            assert(requests@ =~= events@.take(i + 1 as int).map_values(
                |e: Event| Some(spec_transform_local(e)),
            ));
        }
        i = i + 1;
    }
    requests.push(None);
    proof {
        assert(events@.take(events@.len() as int) =~= events@);
    }
    (frame, requests)
}

/// The compute part of the inbound-frame handler: decode one received
/// payload-plus-checksum group; a corrupt group yields nothing, a valid
/// one is debounced against the far half's state and its confirmed
/// events become dispatch requests in the far half's address space.
pub fn remote_frame(db: &mut Debouncer, buf: &Vec<u8>) -> (reqs: Vec<Option<Event>>)
    requires
        old(db).wf(),
    ensures
        final(db).wf(),
        match spec_decode(buf@) {
            Some(s) => {
                &&& final(db).model() == spec_db_next(old(db).model(), s)
                &&& reqs@ == spec_db_events(old(db).model(), s).map_values(
                    |e: Event| Some(spec_transform_remote(e)),
                )
            },
            None => *final(db) == *old(db) && reqs@ == Seq::<Option<Event>>::empty(),
        },
        forall|j: int|
            0 <= j < reqs@.len() ==> (#[trigger] reqs@[j] matches Some(e) ==> e.in_merged_space()),
{
    match decode_scan(buf) {
        None => Vec::new(),
        Some(snap) => {
            let events = db.events(&snap);
            let ghost s = snap@;
            let mut reqs: Vec<Option<Event>> = Vec::new();
            let mut i: usize = 0;
            while i < events.len()
                invariant
                    i <= events@.len(),
                    forall|j: int| 0 <= j < events@.len() ==> (#[trigger] events@[j]).row() < ROWS
                        && events@[j].col() < COLS,
                    reqs@ == events@.take(i as int).map_values(
                        |e: Event| Some(spec_transform_remote(e)),
                    ),
                    forall|j: int|
                        0 <= j < reqs@.len() ==> (#[trigger] reqs@[j] matches Some(e)
                            ==> e.in_merged_space()),
                decreases events@.len() - i,
            {
                let e = events[i];
                let t = transform_remote(e);
                reqs.push(Some(t));
                proof {
                    assert(events@.take(i + 1 as int) =~= events@.take(i as int).push(e));
                    assert(reqs@ =~= events@.take(i + 1 as int).map_values(
                        |e: Event| Some(spec_transform_remote(e)),
                    ));
                }
                i = i + 1;
            }
            proof {
                assert(events@.take(events@.len() as int) =~= events@);
            }
            reqs
        },
    }
}

/// What one dispatch request does to the engine before the tick.
pub open spec fn spec_apply(m: LayoutModel, req: Option<Event>) -> LayoutModel {
    match req {
        None => m,
        Some(e) => match e {
            Event::Press(_, _) => spec_press(m, event_index(e)),
            Event::Release(_, _) => spec_release(m, event_index(e)),
        },
    }
}

/// The dispatch handler: applies the request's event, if any, then
/// advances the engine one tick and returns the fresh report for the
/// host.
pub fn dispatch(layout: &mut Layout, req: Option<Event>) -> (report: Vec<u8>)
    requires
        old(layout).wf(),
        req matches Some(e) ==> e.in_merged_space(),
    ensures
        final(layout).wf(),
        final(layout).model() == spec_tick_state(spec_apply(old(layout).model(), req)),
        report@.to_set() == spec_tick_report(spec_apply(old(layout).model(), req)),
        forall|a: int, b: int| 0 <= a < b < report@.len() ==> report@[a] < report@[b],
{
    match req {
        Some(e) => {
            layout.event(e);
        },
        None => {},
    }
    layout.tick()
}

} // verus!
