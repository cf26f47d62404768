use vstd::prelude::*;
use crate::peer::PeerIdentifier;
use crate::tracker::{PeerTracker, LifecycleEvent, EventView, apply_event};

verus! {

/// A notification from the networking library's event stream, as the driving
/// loop hands it to the library. Anything that is not a connection opening or
/// closing is `Other` and leaves the membership alone.
#[derive(Debug)]
pub enum NodeNotification {
    ListenAddressBound(String),
    ConnectionEstablished(PeerIdentifier),
    ConnectionClosed(PeerIdentifier),
    Other,
}

/// The lifecycle meaning of a notification, if it has one.
pub open spec fn lifecycle_view(n: NodeNotification) -> Option<EventView> {
    match n {
        NodeNotification::ConnectionEstablished(p) => Some(EventView::Connected(p@)),
        NodeNotification::ConnectionClosed(p) => Some(EventView::Disconnected(p@)),
        NodeNotification::ListenAddressBound(_) => None,
        NodeNotification::Other => None,
    }
}

/// What a notification does to the membership: its lifecycle event applied,
/// or nothing when it carries none.
pub open spec fn notification_effect(s: Set<Seq<u8>>, n: NodeNotification) -> Set<Seq<u8>> {
    match lifecycle_view(n) {
        Some(e) => apply_event(s, e),
        None => s,
    }
}

/// Translates a notification into the lifecycle event the tracker should
/// fold, or `None` for the notifications the tracker ignores.
pub fn classify(n: NodeNotification) -> (r: Option<LifecycleEvent>)
    ensures
        match r {
            Some(e) => lifecycle_view(n) == Some(e@),
            None => lifecycle_view(n) is None,
        },
{
    match n {
        NodeNotification::ConnectionEstablished(p) => Some(LifecycleEvent::Connected(p)),
        NodeNotification::ConnectionClosed(p) => Some(LifecycleEvent::Disconnected(p)),
        NodeNotification::ListenAddressBound(_) => None,
        NodeNotification::Other => None,
    }
}

/// One step of the driving loop: folds the notification's lifecycle meaning
/// into the tracker and ignores everything else.
pub fn handle_notification(tracker: &mut PeerTracker, n: NodeNotification)
    requires
        old(tracker).wf(),
    ensures
        final(tracker).wf(),
        final(tracker)@ == notification_effect(old(tracker)@, n),
{
    match classify(n) {
        Some(e) => tracker.apply(e),
        None => {},
    }
}

/// How often the driving loop reports a snapshot, in seconds.
pub const DEFAULT_REPORT_INTERVAL_SECS: u64 = 5;

/// The address the node listens on when none is configured.
pub open spec fn default_listen_address() -> Seq<char> {
    "/ip4/0.0.0.0/tcp/0"@
}

/// The bootstrap peer the node dials when none is configured.
pub open spec fn default_bootstrap_address() -> Seq<char> {
    "/dns4/ipfs.infura.io/tcp/5001"@
}

/// Configuration for the driving loop: where to listen, whom to dial at
/// startup, and how often to report the connected peers.
#[derive(Debug)]
pub struct NodeConfig {
    pub listen_address: String,
    pub bootstrap_address: String,
    pub report_interval_secs: u64,
}

impl Default for NodeConfig {
    fn default() -> (r: NodeConfig)
        ensures
            r.listen_address@ == default_listen_address(),
            r.bootstrap_address@ == default_bootstrap_address(),
            r.report_interval_secs == DEFAULT_REPORT_INTERVAL_SECS,
    {
        NodeConfig {
            listen_address: "/ip4/0.0.0.0/tcp/0".to_owned(),
            bootstrap_address: "/dns4/ipfs.infura.io/tcp/5001".to_owned(),
            report_interval_secs: DEFAULT_REPORT_INTERVAL_SECS,
        }
    }
}

} // verus!
