//! The tracker of a synchronization run: the messages sent each way, and, once the run is over,
//! how many differences were left between the replicas.

use vstd::prelude::*;

verus! {

/// A recorder of the events of one synchronization, closed by [`Telemetry::finish`].
pub trait Telemetry {
    type Event;

    /// The events registered so far, in order.
    spec fn spec_events(&self) -> Seq<Self::Event>;

    /// The false matches given to `finish`, once it was called.
    spec fn spec_outcome(&self) -> Option<usize>;

    /// Returns `true` if no event was registered and the run is not finished.
    fn is_ready(&self) -> (r: bool)
        ensures
            r == (self.spec_events().len() == 0 && self.spec_outcome() is None),
    ;

    /// Registers `event`, unless the run is finished.
    fn register(&mut self, event: Self::Event)
        ensures
            final(self).spec_outcome() == old(self).spec_outcome(),
            final(self).spec_events() == if old(self).spec_outcome() is None {
                old(self).spec_events().push(event)
            } else {
                old(self).spec_events()
            },
    ;

    /// The events registered so far, in order.
    fn events(&self) -> (r: &Vec<Self::Event>)
        ensures
            r@ == self.spec_events(),
    ;

    /// Finishes the run with the number of differences left, unless it is finished already.
    fn finish(&mut self, false_matches: usize)
        ensures
            final(self).spec_events() == old(self).spec_events(),
            final(self).spec_outcome() == if old(self).spec_outcome() is None {
                Some(false_matches)
            } else {
                old(self).spec_outcome()
            },
    ;

    /// The number of differences left when the run finished.
    fn false_matches(&self) -> (r: usize)
        requires
            self.spec_outcome() is Some,
        ensures
            self.spec_outcome() == Some(r),
    ;
}

/// A transfer over the network: the bytes of state and of metadata that it carries, and the rate
/// of the link it used.
#[derive(Debug, Clone, Copy)]
pub enum DefaultEvent<B> {
    LocalToRemote { state: usize, metadata: usize, upload: B },
    RemoteToLocal { state: usize, metadata: usize, download: B },
}

impl<B: Copy> DefaultEvent<B> {
    /// The bytes of state of the transfer.
    pub open spec fn spec_state(&self) -> usize {
        match self {
            DefaultEvent::LocalToRemote { state, .. } => *state,
            DefaultEvent::RemoteToLocal { state, .. } => *state,
        }
    }

    /// The bytes of metadata of the transfer.
    pub open spec fn spec_metadata(&self) -> usize {
        match self {
            DefaultEvent::LocalToRemote { metadata, .. } => *metadata,
            DefaultEvent::RemoteToLocal { metadata, .. } => *metadata,
        }
    }

    /// The bytes of state of the transfer.
    pub fn state(&self) -> (r: usize)
        ensures
            r == self.spec_state(),
    {
        match self {
            DefaultEvent::LocalToRemote { state, .. } => *state,
            DefaultEvent::RemoteToLocal { state, .. } => *state,
        }
    }

    /// The bytes of metadata of the transfer.
    pub fn metadata(&self) -> (r: usize)
        ensures
            r == self.spec_metadata(),
    {
        match self {
            DefaultEvent::LocalToRemote { metadata, .. } => *metadata,
            DefaultEvent::RemoteToLocal { metadata, .. } => *metadata,
        }
    }

    /// All the bytes of the transfer.
    pub fn bytes(&self) -> (r: usize)
        requires
            self.spec_state() + self.spec_metadata() <= usize::MAX,
        ensures
            r == self.spec_state() + self.spec_metadata(),
    {
        self.state() + self.metadata()
    }

    /// The upload rate of a transfer from local to remote.
    pub fn upload(&self) -> (r: B)
        requires
            self is LocalToRemote,
        ensures
            r == self->upload,
    {
        match self {
            DefaultEvent::LocalToRemote { upload, .. } => *upload,
            DefaultEvent::RemoteToLocal { .. } => vstd::pervasive::unreached(),
        }
    }

    /// The download rate of a transfer from remote to local.
    pub fn download(&self) -> (r: B)
        requires
            self is RemoteToLocal,
        ensures
            r == self->download,
    {
        match self {
            DefaultEvent::RemoteToLocal { download, .. } => *download,
            DefaultEvent::LocalToRemote { .. } => vstd::pervasive::unreached(),
        }
    }
}

/// The [`Telemetry`] of a run over a link with the given download and upload rates.
#[derive(Debug)]
pub struct DefaultTracker<B> {
    events: Vec<DefaultEvent<B>>,
    diffs: Option<usize>,
    download: B,
    upload: B,
}

impl<B: Copy> DefaultTracker<B> {
    /// The download rate of the link.
    pub closed spec fn spec_download(&self) -> B {
        self.download
    }

    /// The upload rate of the link.
    pub closed spec fn spec_upload(&self) -> B {
        self.upload
    }

    /// A tracker that is ready: no event and not finished.
    pub fn new(download: B, upload: B) -> (r: Self)
        ensures
            r.spec_events() == Seq::<DefaultEvent<B>>::empty(),
            r.spec_outcome() is None,
            r.spec_download() == download,
            r.spec_upload() == upload,
    {
        DefaultTracker { events: Vec::new(), diffs: None, download, upload }
    }

    /// The download rate of the link.
    pub fn download(&self) -> (r: B)
        ensures
            r == self.spec_download(),
    {
        self.download
    }

    /// The upload rate of the link.
    pub fn upload(&self) -> (r: B)
        ensures
            r == self.spec_upload(),
    {
        self.upload
    }
}

impl<B: Copy> Telemetry for DefaultTracker<B> {
    type Event = DefaultEvent<B>;

    closed spec fn spec_events(&self) -> Seq<DefaultEvent<B>> {
        self.events@
    }

    closed spec fn spec_outcome(&self) -> Option<usize> {
        self.diffs
    }

    fn is_ready(&self) -> (r: bool) {
        self.events.len() == 0 && self.diffs.is_none()
    }

    fn register(&mut self, event: DefaultEvent<B>)
        ensures
            final(self).spec_download() == old(self).spec_download(),
            final(self).spec_upload() == old(self).spec_upload(),
    {
        if self.diffs.is_none() {
            self.events.push(event);
        }
    }

    fn events(&self) -> (r: &Vec<DefaultEvent<B>>) {
        &self.events
    }

    fn finish(&mut self, false_matches: usize)
        ensures
            final(self).spec_download() == old(self).spec_download(),
            final(self).spec_upload() == old(self).spec_upload(),
    {
        if self.diffs.is_none() {
            self.diffs = Some(false_matches);
        }
    }

    fn false_matches(&self) -> (r: usize) {
        match self.diffs {
            Some(n) => n,
            None => vstd::pervasive::unreached(),
        }
    }
}

/// The bytes of state of all the events of `events`.
pub open spec fn events_state<B: Copy>(events: Seq<DefaultEvent<B>>) -> nat
    decreases events.len(),
{
    if events.len() == 0 {
        0
    } else {
        events_state(events.drop_last()) + events.last().spec_state() as nat
    }
}

/// The bytes of metadata of all the events of `events`.
pub open spec fn events_metadata<B: Copy>(events: Seq<DefaultEvent<B>>) -> nat
    decreases events.len(),
{
    if events.len() == 0 {
        0
    } else {
        events_metadata(events.drop_last()) + events.last().spec_metadata() as nat
    }
}

/// The sums only grow along the events.
proof fn lemma_events_prefix<B: Copy>(events: Seq<DefaultEvent<B>>, k: int)
    requires
        0 <= k <= events.len(),
    ensures
        events_state(events.take(k)) <= events_state(events),
        events_metadata(events.take(k)) <= events_metadata(events),
    decreases events.len() - k,
{
    if k < events.len() {
        lemma_events_prefix(events, k + 1);
        assert(events.take(k + 1).drop_last() =~= events.take(k));
    } else {
        assert(events.take(k) =~= events);
    }
}

/// The average of the events of one message over several runs: the sums of their state and
/// metadata divided by the number of runs, in the direction of the first of them, with the link
/// rate of that direction.
pub open spec fn average_event<B: Copy>(events: Seq<DefaultEvent<B>>, runs: nat, upload: B, download: B) -> DefaultEvent<B> {
    let state = (events_state(events) / runs) as usize;
    let metadata = (events_metadata(events) / runs) as usize;
    match events[0] {
        DefaultEvent::LocalToRemote { .. } => DefaultEvent::LocalToRemote { state, metadata, upload },
        DefaultEvent::RemoteToLocal { .. } => DefaultEvent::RemoteToLocal { state, metadata, download },
    }
}

/// The average event of each message, in order: `message_to_events` holds, for each message, its
/// events over `nr_experiments` runs.
pub fn average_tracker_events<B: Copy>(
    message_to_events: Vec<Vec<DefaultEvent<B>>>,
    nr_experiments: usize,
    upload: B,
    download: B,
) -> (r: Vec<DefaultEvent<B>>)
    requires
        nr_experiments > 0,
        forall|m: int| 0 <= m < message_to_events@.len() ==> (#[trigger] message_to_events@[m])@.len() > 0,
        forall|m: int| 0 <= m < message_to_events@.len() ==> events_state((#[trigger] message_to_events@[m])@) <= usize::MAX,
        forall|m: int| 0 <= m < message_to_events@.len() ==> events_metadata((#[trigger] message_to_events@[m])@) <= usize::MAX,
    ensures
        r@.len() == message_to_events@.len(),
        forall|m: int| 0 <= m < r@.len() ==> (#[trigger] r@[m]) == average_event(message_to_events@[m]@, nr_experiments as nat, upload, download),
{
    let mut out: Vec<DefaultEvent<B>> = Vec::new();
    let mut m: usize = 0;
    while m < message_to_events.len()
        invariant
            m <= message_to_events@.len(),
            out@.len() == m,
            nr_experiments > 0,
            forall|x: int| 0 <= x < message_to_events@.len() ==> (#[trigger] message_to_events@[x])@.len() > 0,
            forall|x: int| 0 <= x < message_to_events@.len() ==> events_state((#[trigger] message_to_events@[x])@) <= usize::MAX,
            forall|x: int| 0 <= x < message_to_events@.len() ==> events_metadata((#[trigger] message_to_events@[x])@) <= usize::MAX,
            forall|x: int| 0 <= x < out@.len() ==> (#[trigger] out@[x]) == average_event(message_to_events@[x]@, nr_experiments as nat, upload, download),
        decreases message_to_events@.len() - m,
    {
        let events = &message_to_events[m];
        let mut state: usize = 0;
        let mut metadata: usize = 0;
        let mut i: usize = 0;
        while i < events.len()
            invariant
                i <= events@.len(),
                events_state(events@) <= usize::MAX,
                events_metadata(events@) <= usize::MAX,
                state == events_state(events@.take(i as int)),
                metadata == events_metadata(events@.take(i as int)),
            decreases events@.len() - i,
        {
            proof {
                assert(events@.take(i + 1).drop_last() =~= events@.take(i as int));
                lemma_events_prefix(events@, i + 1);
            }
            state = state + events[i].state();
            metadata = metadata + events[i].metadata();
            i = i + 1;
        }
        assert(events@.take(events@.len() as int) =~= events@);
        let avg_state = state / nr_experiments;
        let avg_metadata = metadata / nr_experiments;
        let event = match &events[0] {
            DefaultEvent::LocalToRemote { .. } => DefaultEvent::LocalToRemote { state: avg_state, metadata: avg_metadata, upload },
            DefaultEvent::RemoteToLocal { .. } => DefaultEvent::RemoteToLocal { state: avg_state, metadata: avg_metadata, download },
        };
        let ghost before = out@;
        out.push(event);
        proof {
            assert forall|x: int| 0 <= x < out@.len() implies (#[trigger] out@[x]) == average_event(message_to_events@[x]@, nr_experiments as nat, upload, download) by {
                if x < before.len() {
                    assert(out@[x] == before[x]);
                }
            }
        }
        m = m + 1;
    }
    out
}

/// The events of message `m` once the events of one run were added: those it had, then the
/// `m`-th event of the run, where the run has one.
pub open spec fn grouped<E>(acc: Seq<Vec<E>>, events: Seq<E>, m: int) -> Seq<E> {
    let before = if m < acc.len() { acc[m]@ } else { Seq::empty() };
    if m < events.len() {
        before.push(events[m])
    } else {
        before
    }
}

/// Adds the events of one run to the events of each message: the `i`-th event goes to the `i`-th
/// message, which starts where the run has more events than the messages so far.
pub fn group_by_message<B: Copy>(acc: &mut Vec<Vec<DefaultEvent<B>>>, events: &Vec<DefaultEvent<B>>)
    ensures
        final(acc)@.len() == if old(acc)@.len() >= events@.len() { old(acc)@.len() } else { events@.len() },
        forall|m: int| 0 <= m < final(acc)@.len() ==> (#[trigger] final(acc)@[m])@ == grouped(old(acc)@, events@, m),
{
    let mut i: usize = 0;
    let ghost start = acc@;
    while i < events.len()
        invariant
            i <= events@.len(),
            acc@.len() == if start.len() >= i { start.len() } else { i as nat },
            forall|m: int| 0 <= m < acc@.len() ==> (#[trigger] acc@[m])@ == grouped(start, events@.take(i as int), m),
        decreases events@.len() - i,
    {
        if i == acc.len() {
            acc.push(Vec::new());
        }
        let ghost before = acc@;
        let mut message = Vec::new();
        std::mem::swap(&mut message, &mut acc[i]);
        message.push(events[i]);
        acc.set(i, message);
        proof {
            assert forall|m: int| 0 <= m < acc@.len() implies (#[trigger] acc@[m])@ == grouped(start, events@.take(i + 1), m) by {
                if m != i {
                    assert(acc@[m] == before[m]);
                    assert(grouped(start, events@.take(i + 1), m) == grouped(start, events@.take(i as int), m));
                } else {
                    assert(events@.take(i + 1)[m] == events@[m]);
                }
            }
        }
        i = i + 1;
    }
    proof {
        assert(events@.take(events@.len() as int) =~= events@);
    }
}

} // verus!
