use vstd::prelude::*;
use crate::peer::PeerIdentifier;

verus! {

/// A connection lifecycle event, consumed once by the tracker.
#[derive(Debug)]
pub enum LifecycleEvent {
    Connected(PeerIdentifier),
    Disconnected(PeerIdentifier),
}

/// The mathematical form of a lifecycle event: the peer identifier as its
/// byte sequence.
pub enum EventView {
    Connected(Seq<u8>),
    Disconnected(Seq<u8>),
}

impl View for LifecycleEvent {
    type V = EventView;

    open spec fn view(&self) -> EventView {
        match self {
            LifecycleEvent::Connected(p) => EventView::Connected(p@),
            LifecycleEvent::Disconnected(p) => EventView::Disconnected(p@),
        }
    }
}

impl LifecycleEvent {
    /// A fresh event naming the same peer.
    pub fn clone_event(&self) -> (r: LifecycleEvent)
        ensures
            r@ == self@,
    {
        match self {
            LifecycleEvent::Connected(p) => LifecycleEvent::Connected(p.clone_id()),
            LifecycleEvent::Disconnected(p) => LifecycleEvent::Disconnected(p.clone_id()),
        }
    }
}

/// What one event does to a membership set: a connect inserts the identifier,
/// a disconnect removes it. Both are idempotent by the set semantics.
pub open spec fn apply_event(s: Set<Seq<u8>>, e: EventView) -> Set<Seq<u8>> {
    match e {
        EventView::Connected(id) => s.insert(id),
        EventView::Disconnected(id) => s.remove(id),
    }
}

/// The membership reached from `s` by applying `events` in order.
pub open spec fn fold_from(s: Set<Seq<u8>>, events: Seq<EventView>) -> Set<Seq<u8>>
    decreases events.len(),
{
    if events.len() == 0 {
        s
    } else {
        apply_event(fold_from(s, events.drop_last()), events.last())
    }
}

/// The membership reached from the empty set by applying `events` in order.
pub open spec fn fold_events(events: Seq<EventView>) -> Set<Seq<u8>> {
    fold_from(Set::empty(), events)
}

/// The views of a sequence of events.
pub open spec fn views_of_events(s: Seq<LifecycleEvent>) -> Seq<EventView> {
    s.map_values(|e: LifecycleEvent| e@)
}

/// The members of a sequence of peer identifiers, as a set of byte sequences.
pub open spec fn peer_set(s: Seq<PeerIdentifier>) -> Set<Seq<u8>> {
    Set::new(|x: Seq<u8>| exists|i: int| 0 <= i < s.len() && s[i]@ == x)
}

/// No identifier occurs twice in the sequence.
pub open spec fn distinct_ids(s: Seq<PeerIdentifier>) -> bool {
    forall|i: int, j: int| 0 <= i < j < s.len() ==> s[i]@ != s[j]@
}

proof fn lemma_peer_set_push(s: Seq<PeerIdentifier>, p: PeerIdentifier)
    ensures
        peer_set(s.push(p)) == peer_set(s).insert(p@),
{
    assert forall|x: Seq<u8>| peer_set(s.push(p)).contains(x) implies peer_set(s).insert(
        p@,
    ).contains(x) by {
        let i = choose|i: int| 0 <= i < s.push(p).len() && s.push(p)[i]@ == x;
        if i < s.len() {
            assert(s[i]@ == x);
        } else {
            assert(s.push(p)[i] == p);
        }
    }
    assert forall|x: Seq<u8>| peer_set(s).insert(p@).contains(x) implies peer_set(
        s.push(p),
    ).contains(x) by {
        if x == p@ {
            assert(s.push(p)[s.len() as int]@ == x);
        } else {
            let i = choose|i: int| 0 <= i < s.len() && s[i]@ == x;
            assert(s.push(p)[i]@ == x);
        }
    }
    assert(peer_set(s.push(p)) =~= peer_set(s).insert(p@));
}

proof fn lemma_peer_set_remove(s: Seq<PeerIdentifier>, k: int)
    requires
        0 <= k < s.len(),
        distinct_ids(s),
    ensures
        peer_set(s.remove(k)) == peer_set(s).remove(s[k]@),
        distinct_ids(s.remove(k)),
{
    let t = s.remove(k);
    assert forall|x: Seq<u8>| peer_set(t).contains(x) implies peer_set(s).remove(
        s[k]@,
    ).contains(x) by {
        let i = choose|i: int| 0 <= i < t.len() && t[i]@ == x;
        if i < k {
            assert(s[i]@ == x);
            assert(s[i]@ != s[k]@);
        } else {
            assert(s[i + 1]@ == x);
            assert(s[k]@ != s[i + 1]@);
        }
    }
    assert forall|x: Seq<u8>| peer_set(s).remove(s[k]@).contains(x) implies peer_set(t).contains(
        x,
    ) by {
        let i = choose|i: int| 0 <= i < s.len() && s[i]@ == x;
        if i < k {
            assert(t[i]@ == x);
        } else {
            assert(i != k);
            assert(t[i - 1]@ == x);
        }
    }
    assert(peer_set(t) =~= peer_set(s).remove(s[k]@));
    assert forall|i: int, j: int| 0 <= i < j < t.len() implies t[i]@ != t[j]@ by {
        if j < k {
            assert(s[i]@ != s[j]@);
        } else if i < k {
            assert(s[i]@ != s[j + 1]@);
        } else {
            assert(s[i + 1]@ != s[j + 1]@);
        }
    }
}

proof fn lemma_peer_set_cardinality(s: Seq<PeerIdentifier>)
    requires
        distinct_ids(s),
    ensures
        peer_set(s).finite(),
        peer_set(s).len() == s.len(),
    decreases s.len(),
{
    if s.len() == 0 {
        assert(peer_set(s) =~= Set::<Seq<u8>>::empty());
    } else {
        let prefix = s.drop_last();
        let last = s.last();
        assert(distinct_ids(prefix));
        lemma_peer_set_cardinality(prefix);
        assert(s =~= prefix.push(last));
        lemma_peer_set_push(prefix, last);
        assert forall|i: int| 0 <= i < prefix.len() implies prefix[i]@ != last@ by {
            assert(s[i]@ != s[s.len() - 1]@);
        }
        assert(!peer_set(prefix).contains(last@));
    }
}

proof fn lemma_peer_set_congruent(a: Seq<PeerIdentifier>, b: Seq<PeerIdentifier>)
    requires
        a.len() == b.len(),
        forall|i: int| 0 <= i < a.len() ==> a[i]@ == b[i]@,
    ensures
        peer_set(a) == peer_set(b),
{
    assert forall|x: Seq<u8>| peer_set(a).contains(x) implies peer_set(b).contains(x) by {
        let i = choose|i: int| 0 <= i < a.len() && a[i]@ == x;
        assert(b[i]@ == x);
    }
    assert forall|x: Seq<u8>| peer_set(b).contains(x) implies peer_set(a).contains(x) by {
        let i = choose|i: int| 0 <= i < b.len() && b[i]@ == x;
        assert(a[i]@ == x);
    }
    assert(peer_set(a) =~= peer_set(b));
}

/// The set of currently connected peers. Created empty at process start and
/// mutated only by folding lifecycle events; a snapshot reads the membership.
#[derive(Debug)]
pub struct PeerTracker {
    peers: Vec<PeerIdentifier>,
}

impl View for PeerTracker {
    type V = Set<Seq<u8>>;

    closed spec fn view(&self) -> Set<Seq<u8>> {
        peer_set(self.peers@)
    }
}

impl PeerTracker {
    /// The tracker stores each connected identifier exactly once.
    pub closed spec fn wf(&self) -> bool {
        distinct_ids(self.peers@)
    }

    /// A tracker with no connected peers.
    pub fn new() -> (r: PeerTracker)
        ensures
            r.wf(),
            r@ == Set::<Seq<u8>>::empty(),
    {
        let t = PeerTracker { peers: Vec::new() };
        proof {
            assert(t@ =~= Set::<Seq<u8>>::empty());
        }
        t
    }

    /// Where `id` is stored, if it is.
    fn position_of(&self, id: &PeerIdentifier) -> (r: Option<usize>)
        ensures
            match r {
                Some(i) => i < self.peers@.len() && self.peers@[i as int]@ == id@,
                None => !self@.contains(id@),
            },
    {
        let mut i: usize = 0;
        while i < self.peers.len()
            invariant
                i <= self.peers@.len(),
                forall|j: int| 0 <= j < i ==> self.peers@[j]@ != id@,
            decreases self.peers@.len() - i,
        {
            if self.peers[i].same_id(id) {
                return Some(i);
            }
            i += 1;
        }
        None
    }

    /// Whether `id` is currently connected.
    pub fn contains(&self, id: &PeerIdentifier) -> (r: bool)
        ensures
            r == self@.contains(id@),
    {
        match self.position_of(id) {
            Some(_) => true,
            None => false,
        }
    }

    /// How many peers are currently connected.
    pub fn len(&self) -> (r: usize)
        requires
            self.wf(),
        ensures
            r == self@.len(),
    {
        proof {
            lemma_peer_set_cardinality(self.peers@);
        }
        self.peers.len()
    }

    /// Folds one lifecycle event into the membership: `Connected(id)` inserts
    /// `id`, `Disconnected(id)` removes it. Both directions are no-ops when
    /// the identifier is already in the target state; the operation cannot
    /// fail.
    pub fn apply(&mut self, event: LifecycleEvent)
        requires
            old(self).wf(),
        ensures
            final(self).wf(),
            final(self)@ == apply_event(old(self)@, event@),
    {
        match event {
            LifecycleEvent::Connected(id) => {
                match self.position_of(&id) {
                    Some(i) => {
                        proof {
                            assert(self.peers@[i as int]@ == id@);
                            assert(self@.contains(id@));
                            assert(self@.insert(id@) =~= self@);
                        }
                    },
                    None => {
                        proof {
                            lemma_peer_set_push(self.peers@, id);
                        }
                        let ghost before = self.peers@;
                        self.peers.push(id);
                        proof {
                            assert forall|i: int, j: int|
                                0 <= i < j < self.peers@.len() implies self.peers@[i]@
                                != self.peers@[j]@ by {
                                if j < before.len() {
                                    assert(before[i]@ != before[j]@);
                                } else {
                                    assert(!peer_set(before).contains(self.peers@[j]@));
                                }
                            }
                        }
                    },
                }
            },
            LifecycleEvent::Disconnected(id) => {
                match self.position_of(&id) {
                    Some(i) => {
                        proof {
                            lemma_peer_set_remove(self.peers@, i as int);
                        }
                        self.peers.remove(i);
                    },
                    None => {
                        proof {
                            assert(self@.remove(id@) =~= self@);
                        }
                    },
                }
            },
        }
    }

    /// Folds a whole sequence of lifecycle events into the membership, in
    /// order.
    pub fn apply_all(&mut self, events: Vec<LifecycleEvent>)
        requires
            old(self).wf(),
        ensures
            final(self).wf(),
            final(self)@ == fold_from(old(self)@, views_of_events(events@)),
    {
        let ghost init: Set<Seq<u8>> = self@;
        let ghost evs: Seq<EventView> = views_of_events(events@);
        let mut i: usize = 0;
        while i < events.len()
            invariant
                i <= events@.len(),
                evs == views_of_events(events@),
                self.wf(),
                self@ == fold_from(init, evs.subrange(0, i as int)),
            decreases events@.len() - i,
        {
            let e = events[i].clone_event();
            self.apply(e);
            proof {
                assert(evs.subrange(0, i + 1).drop_last() =~= evs.subrange(0, i as int));
                assert(evs.subrange(0, i + 1).last() == events@[i as int]@);
            }
            i += 1;
        }
        proof {
            assert(evs.subrange(0, events@.len() as int) =~= evs);
        }
    }

    /// The current membership, as a duplicate-free unordered listing.
    /// A snapshot is exact: it holds precisely the identifiers in the set,
    /// each once, so its length is the membership's size.
    pub fn snapshot(&self) -> (r: Vec<PeerIdentifier>)
        requires
            self.wf(),
        ensures
            peer_set(r@) == self@,
            distinct_ids(r@),
            r@.len() == self@.len(),
    {
        let mut out: Vec<PeerIdentifier> = Vec::new();
        let mut i: usize = 0;
        while i < self.peers.len()
            invariant
                i <= self.peers@.len(),
                out@.len() == i,
                forall|j: int| 0 <= j < i ==> out@[j]@ == self.peers@[j]@,
            decreases self.peers@.len() - i,
        {
            out.push(self.peers[i].clone_id());
            i += 1;
        }
        proof {
            lemma_peer_set_congruent(out@, self.peers@);
            lemma_peer_set_cardinality(self.peers@);
        }
        out
    }
}

/// Whether the last event in `events` that names `id` is a connect: some
/// connect of `id` occurs and no disconnect of `id` follows it.
pub open spec fn last_event_connects(events: Seq<EventView>, id: Seq<u8>) -> bool {
    exists|i: int|
        0 <= i < events.len() && events[i] == EventView::Connected(id) && (forall|j: int|
            i < j < events.len() ==> events[j] != EventView::Disconnected(id))
}

proof fn lemma_last_connects_extend(events: Seq<EventView>, id: Seq<u8>)
    requires
        events.len() > 0,
        events.last() != EventView::Connected(id),
        events.last() != EventView::Disconnected(id),
    ensures
        last_event_connects(events, id) == last_event_connects(events.drop_last(), id),
{
    let prefix = events.drop_last();
    if last_event_connects(prefix, id) {
        let i = choose|i: int|
            0 <= i < prefix.len() && prefix[i] == EventView::Connected(id) && (forall|j: int|
                i < j < prefix.len() ==> prefix[j] != EventView::Disconnected(id));
        assert(events[i] == EventView::Connected(id));
        assert forall|j: int| i < j < events.len() implies events[j] != EventView::Disconnected(
            id,
        ) by {
            if j < prefix.len() {
                assert(prefix[j] != EventView::Disconnected(id));
            }
        }
        assert(last_event_connects(events, id));
    }
    if last_event_connects(events, id) {
        let i = choose|i: int|
            0 <= i < events.len() && events[i] == EventView::Connected(id) && (forall|j: int|
                i < j < events.len() ==> events[j] != EventView::Disconnected(id));
        assert(i < prefix.len());
        assert(prefix[i] == EventView::Connected(id));
        assert forall|j: int| i < j < prefix.len() implies prefix[j] != EventView::Disconnected(
            id,
        ) by {
            assert(events[j] != EventView::Disconnected(id));
        }
        assert(last_event_connects(prefix, id));
    }
}

/// For every event sequence applied to an initially empty membership, the
/// resulting set contains exactly the identifiers whose last event in the
/// sequence was a connect.
pub proof fn lemma_fold_membership(events: Seq<EventView>, id: Seq<u8>)
    ensures
        fold_events(events).contains(id) <==> last_event_connects(events, id),
    decreases events.len(),
{
    if events.len() == 0 {
        assert(!fold_events(events).contains(id));
        assert(!last_event_connects(events, id));
    } else {
        let prefix = events.drop_last();
        let e = events.last();
        lemma_fold_membership(prefix, id);
        match e {
            EventView::Connected(x) => {
                if x == id {
                    assert(fold_events(events).contains(id));
                    assert(events[events.len() - 1] == EventView::Connected(id));
                    assert(last_event_connects(events, id));
                } else {
                    lemma_last_connects_extend(events, id);
                }
            },
            EventView::Disconnected(x) => {
                if x == id {
                    assert(!fold_events(events).contains(id));
                    if last_event_connects(events, id) {
                        let i = choose|i: int|
                            0 <= i < events.len() && events[i] == EventView::Connected(id) && (
                            forall|j: int|
                                i < j < events.len() ==> events[j] != EventView::Disconnected(id));
                        assert(events[events.len() - 1] == EventView::Disconnected(id));
                        assert(i < events.len() - 1);
                        assert(false);
                    }
                } else {
                    lemma_last_connects_extend(events, id);
                }
            },
        }
    }
}

/// Applying a connect twice in a row yields the same membership as applying
/// it once.
pub proof fn lemma_connect_idempotent(s: Set<Seq<u8>>, id: Seq<u8>)
    ensures
        apply_event(apply_event(s, EventView::Connected(id)), EventView::Connected(id))
            == apply_event(s, EventView::Connected(id)),
{
    assert(s.insert(id).insert(id) =~= s.insert(id));
}

/// Disconnecting an identifier that is not a member leaves the membership
/// unchanged.
pub proof fn lemma_disconnect_absent_noop(s: Set<Seq<u8>>, id: Seq<u8>)
    requires
        !s.contains(id),
    ensures
        apply_event(s, EventView::Disconnected(id)) == s,
{
    assert(s.remove(id) =~= s);
}

/// A connect followed by a disconnect of the same identifier removes it,
/// whatever membership it started from.
pub proof fn lemma_connect_then_disconnect(s: Set<Seq<u8>>, id: Seq<u8>)
    ensures
        apply_event(apply_event(s, EventView::Connected(id)), EventView::Disconnected(id))
            == s.remove(id),
{
    assert(s.insert(id).remove(id) =~= s.remove(id));
}

/// A disconnect followed by a connect of the same identifier inserts it:
/// a disconnect seen before the connect does not keep the connect from
/// registering.
pub proof fn lemma_disconnect_then_connect(s: Set<Seq<u8>>, id: Seq<u8>)
    ensures
        apply_event(apply_event(s, EventView::Disconnected(id)), EventView::Connected(id))
            == s.insert(id),
{
    assert(s.remove(id).insert(id) =~= s.insert(id));
}

/// Order sensitivity from the empty membership: connect-then-disconnect
/// yields the empty set, disconnect-then-connect yields the singleton.
pub proof fn lemma_order_sensitivity(id: Seq<u8>)
    ensures
        fold_events(
            seq![EventView::Connected(id), EventView::Disconnected(id)],
        ) == Set::<Seq<u8>>::empty(),
        fold_events(
            seq![EventView::Disconnected(id), EventView::Connected(id)],
        ) == Set::<Seq<u8>>::empty().insert(id),
{
    let s0 = Set::<Seq<u8>>::empty();
    let cd = seq![EventView::Connected(id), EventView::Disconnected(id)];
    let c1 = seq![EventView::Connected(id)];
    assert(cd.drop_last() =~= c1);
    assert(c1.drop_last() =~= Seq::<EventView>::empty());
    assert(fold_from(s0, Seq::<EventView>::empty()) == s0);
    assert(fold_from(s0, c1) == s0.insert(id));
    assert(fold_from(s0, cd) == s0.insert(id).remove(id));
    assert(s0.insert(id).remove(id) =~= s0);
    let dc = seq![EventView::Disconnected(id), EventView::Connected(id)];
    let d1 = seq![EventView::Disconnected(id)];
    assert(dc.drop_last() =~= d1);
    assert(d1.drop_last() =~= Seq::<EventView>::empty());
    assert(fold_from(s0, d1) == s0.remove(id));
    assert(fold_from(s0, dc) == s0.remove(id).insert(id));
    assert(s0.remove(id) =~= s0);
}

} // verus!
