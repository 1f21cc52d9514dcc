//! Records of the transfers that a synchronization makes between two replicas.

use vstd::prelude::*;

verus! {

/// A recorder of events that sums them up on demand.
pub trait Telemetry {
    type Event;
    type DataCollection;

    /// The events registered since the last reset, in order.
    spec fn spec_events(&self) -> Seq<Self::Event>;

    /// Whether the events can be summed up without overflow.
    spec fn spec_collectable(&self) -> bool;

    /// Forgets every event.
    fn reset(&mut self)
        ensures
            final(self).spec_events() == Seq::<Self::Event>::empty(),
    ;

    /// Records `event` after the others.
    fn register(&mut self, event: Self::Event)
        ensures
            final(self).spec_events() == old(self).spec_events().push(event),
    ;

    /// The events registered since the last reset, in order.
    fn events(&self) -> (r: &Vec<Self::Event>)
        ensures
            r@ == self.spec_events(),
    ;

    /// Sums up the events.
    fn collect(&self) -> Self::DataCollection
        requires
            self.spec_collectable(),
    ;
}

/// The direction of a transfer.
#[derive(Clone, Copy, Debug)]
pub enum TransferKind {
    LocalToRemote,
    RemoteToLocal,
}

/// One message between the replicas: the bytes of state and of metadata that it carries.
#[derive(Clone, Copy, Debug)]
pub struct TransferEvent {
    pub state: usize,
    pub metadata: usize,
    pub kind: TransferKind,
}

/// A [`Telemetry`] of transfer events over a link with the given upload and download rates, in
/// bits per second.
#[derive(Clone, Debug)]
pub struct Tracker {
    events: Vec<TransferEvent>,
    pub upload: u64,
    pub download: u64,
}

/// The sums of the bytes of the events of a [`Tracker`].
#[derive(Clone, Copy, Debug)]
pub struct Totals {
    pub sent: usize,
    pub state: usize,
    pub metadata: usize,
}

/// The bytes of state of a sequence of events.
pub open spec fn state_total(events: Seq<TransferEvent>) -> nat
    decreases events.len(),
{
    if events.len() == 0 {
        0
    } else {
        state_total(events.drop_last()) + events.last().state as nat
    }
}

/// The bytes of metadata of a sequence of events.
pub open spec fn metadata_total(events: Seq<TransferEvent>) -> nat
    decreases events.len(),
{
    if events.len() == 0 {
        0
    } else {
        metadata_total(events.drop_last()) + events.last().metadata as nat
    }
}

/// The totals only grow along the events.
proof fn lemma_totals_prefix(events: Seq<TransferEvent>, k: int)
    requires
        0 <= k <= events.len(),
    ensures
        state_total(events.take(k)) <= state_total(events),
        metadata_total(events.take(k)) <= metadata_total(events),
    decreases events.len() - k,
{
    if k < events.len() {
        lemma_totals_prefix(events, k + 1);
        assert(events.take(k + 1).drop_last() =~= events.take(k));
    } else {
        assert(events.take(k) =~= events);
    }
}

impl Tracker {
    /// The upload and download rates of the link, in bits per second.
    pub closed spec fn link(&self) -> (u64, u64) {
        (self.upload, self.download)
    }

    pub const KBPS: u64 = 1_000;
    pub const MBPS: u64 = 1_000_000;
    pub const GBPS: u64 = 1_000_000_000;

    /// A tracker with no events.
    pub fn new(upload: u64, download: u64) -> (r: Self)
        ensures
            r.spec_events() == Seq::<TransferEvent>::empty(),
            r.link() == (upload, download),
    {
        Tracker { events: Vec::new(), upload, download }
    }
}

impl Telemetry for Tracker {
    type Event = TransferEvent;
    type DataCollection = Totals;

    closed spec fn spec_events(&self) -> Seq<TransferEvent> {
        self.events@
    }

    open spec fn spec_collectable(&self) -> bool {
        state_total(self.spec_events()) + metadata_total(self.spec_events()) <= usize::MAX
    }

    fn reset(&mut self)
        ensures
            final(self).link() == old(self).link(),
    {
        self.events.clear();
    }

    fn register(&mut self, event: TransferEvent)
        ensures
            final(self).link() == old(self).link(),
    {
        self.events.push(event);
    }

    fn events(&self) -> (r: &Vec<TransferEvent>) {
        &self.events
    }

    /// The bytes sent, and how many of them were state and metadata.
    fn collect(&self) -> (r: Totals)
        ensures
            r.state == state_total(self.spec_events()),
            r.metadata == metadata_total(self.spec_events()),
            r.sent == state_total(self.spec_events()) + metadata_total(self.spec_events()),
    {
        let mut state: usize = 0;
        let mut metadata: usize = 0;
        let mut i: usize = 0;
        assert(self.events@.take(0) =~= Seq::<TransferEvent>::empty());
        while i < self.events.len()
            invariant
                i <= self.events@.len(),
                state_total(self.events@) + metadata_total(self.events@) <= usize::MAX,
                state == state_total(self.events@.take(i as int)),
                metadata == metadata_total(self.events@.take(i as int)),
            decreases self.events@.len() - i,
        {
            proof {
                assert(self.events@.take(i + 1).drop_last() =~= self.events@.take(i as int));
                lemma_totals_prefix(self.events@, i + 1);
            }
            state = state + self.events[i].state;
            metadata = metadata + self.events[i].metadata;
            i = i + 1;
        }
        assert(self.events@.take(self.events@.len() as int) =~= self.events@);
        Totals { sent: state + metadata, state, metadata }
    }
}

} // verus!
