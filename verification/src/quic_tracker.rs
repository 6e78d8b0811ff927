//! The tracker: the swarm registry and what an announce does to it.

use vstd::prelude::*;
use vstd::hash_map::StringHashMap;
use crate::messages::{
    AnnounceRequestView, AnnounceResponseView, PeerInfo, TrackerAnnounceRequest,
    TrackerAnnounceResponse,
};
use crate::text::str_eq;

verus! {

/// Seconds after which a peer is asked to announce again.
pub const ANNOUNCE_INTERVAL: u64 = 60;

/// The streams that one connection may have open at a time.
pub const MAX_CONCURRENT_STREAMS: u32 = 100;

/// A peer of a swarm, as it last announced itself.
#[derive(Debug, PartialEq, Eq)]
pub struct Peer {
    pub peer_id: String,
    pub ip: String,
    pub port: u16,
    pub uploaded: u64,
    pub downloaded: u64,
    pub left: u64,
}

/// A peer as a mathematical value.
pub struct PeerView {
    pub peer_id: Seq<char>,
    pub ip: Seq<char>,
    pub port: u16,
    pub uploaded: u64,
    pub downloaded: u64,
    pub left: u64,
}

impl View for Peer {
    type V = PeerView;

    open spec fn view(&self) -> PeerView {
        PeerView {
            peer_id: self.peer_id@,
            ip: self.ip@,
            port: self.port,
            uploaded: self.uploaded,
            downloaded: self.downloaded,
            left: self.left,
        }
    }
}

impl Clone for Peer {
    fn clone(&self) -> (r: Peer)
        ensures
            r@ == self@,
    {
        Peer {
            peer_id: self.peer_id.clone(),
            ip: self.ip.clone(),
            port: self.port,
            uploaded: self.uploaded,
            downloaded: self.downloaded,
            left: self.left,
        }
    }
}

/// The peers of a list as mathematical values.
pub open spec fn peers_view(s: Seq<Peer>) -> Seq<PeerView> {
    Seq::new(s.len(), |i: int| s[i]@)
}

/// The peer that an announce describes: what the request leaves out counts
/// as zero, and a request without an address comes from the local host.
pub open spec fn peer_of(req: AnnounceRequestView) -> PeerView {
    PeerView {
        peer_id: req.peer_id,
        ip: match req.ip {
            Some(ip) => ip,
            None => "127.0.0.1"@,
        },
        port: req.port,
        uploaded: match req.uploaded {
            Some(n) => n,
            None => 0,
        },
        downloaded: match req.downloaded {
            Some(n) => n,
            None => 0,
        },
        left: match req.left {
            Some(n) => n,
            None => 0,
        },
    }
}

/// Whether the announce says that the peer leaves the swarm.
pub open spec fn is_stop(req: AnnounceRequestView) -> bool {
    req.event == Some("stopped"@)
}

/// The swarm without the peers that have the identifier `id`, the others in
/// their order.
pub open spec fn without_peer(swarm: Seq<PeerView>, id: Seq<char>) -> Seq<PeerView>
    decreases swarm.len(),
{
    if swarm.len() == 0 {
        Seq::empty()
    } else if swarm.last().peer_id == id {
        without_peer(swarm.drop_last(), id)
    } else {
        without_peer(swarm.drop_last(), id).push(swarm.last())
    }
}

/// The swarm after an announce: the entry of the announcing peer is taken
/// out, and unless the peer leaves, its new entry goes to the end.
pub open spec fn swarm_after(swarm: Seq<PeerView>, req: AnnounceRequestView) -> Seq<PeerView> {
    if is_stop(req) {
        without_peer(swarm, req.peer_id)
    } else {
        without_peer(swarm, req.peer_id).push(peer_of(req))
    }
}

/// The swarm registered under `info_hash`; none is an empty one.
pub open spec fn swarm_of(swarms: Map<Seq<char>, Seq<PeerView>>, info_hash: Seq<char>) -> Seq<
    PeerView,
> {
    if swarms.contains_key(info_hash) {
        swarms[info_hash]
    } else {
        Seq::empty()
    }
}

/// How many peers of the swarm have nothing left to download.
pub open spec fn count_complete(swarm: Seq<PeerView>) -> nat
    decreases swarm.len(),
{
    if swarm.len() == 0 {
        0
    } else if swarm.last().left == 0 {
        count_complete(swarm.drop_last()) + 1
    } else {
        count_complete(swarm.drop_last())
    }
}

/// How many peers of the swarm still have something left to download.
pub open spec fn count_incomplete(swarm: Seq<PeerView>) -> nat
    decreases swarm.len(),
{
    if swarm.len() == 0 {
        0
    } else if swarm.last().left > 0 {
        count_incomplete(swarm.drop_last()) + 1
    } else {
        count_incomplete(swarm.drop_last())
    }
}

/// The address and port of each peer of the swarm, in order.
pub open spec fn addresses(swarm: Seq<PeerView>) -> Seq<(Seq<char>, u16)> {
    Seq::new(swarm.len(), |i: int| (swarm[i].ip, swarm[i].port))
}

/// The answer to an announce of `requester` on a swarm: the fixed interval,
/// the other peers in registry order, and how many of those others are
/// complete and incomplete.
pub open spec fn announce_response(swarm: Seq<PeerView>, requester: Seq<char>) -> AnnounceResponseView {
    let others = without_peer(swarm, requester);
    AnnounceResponseView {
        interval: 60,
        peers: addresses(others),
        complete: count_complete(others) as u64,
        incomplete: count_incomplete(others) as u64,
    }
}

/// Whether no two peers of the swarm have the same identifier.
pub open spec fn distinct_ids(swarm: Seq<PeerView>) -> bool {
    forall|i: int, j: int|
        0 <= i < j < swarm.len() ==> (#[trigger] swarm[i]).peer_id != (#[trigger] swarm[j]).peer_id
}

/// The counts of complete and incomplete peers are at most the size of the
/// swarm, and together they are its size.
pub proof fn lemma_counts(swarm: Seq<PeerView>)
    ensures
        count_complete(swarm) + count_incomplete(swarm) == swarm.len(),
    decreases swarm.len(),
{
    if swarm.len() > 0 {
        lemma_counts(swarm.drop_last());
    }
}

/// What `without_peer` keeps: no peer with the identifier `id`, every other
/// peer of the swarm, and these in the order in which the swarm has them.
pub proof fn lemma_without_peer(swarm: Seq<PeerView>, id: Seq<char>)
    ensures
        without_peer(swarm, id).len() <= swarm.len(),
        forall|i: int|
            0 <= i < without_peer(swarm, id).len() ==> (#[trigger] without_peer(swarm, id)[i]).peer_id
                != id,
        forall|i: int|
            0 <= i < without_peer(swarm, id).len() ==> swarm.contains(
                #[trigger] without_peer(swarm, id)[i],
            ),
        forall|i: int|
            0 <= i < swarm.len() && swarm[i].peer_id != id ==> without_peer(swarm, id).contains(
                #[trigger] swarm[i],
            ),
        distinct_ids(swarm) ==> distinct_ids(without_peer(swarm, id)),
    decreases swarm.len(),
{
    let r = without_peer(swarm, id);
    if swarm.len() > 0 {
        let front = swarm.drop_last();
        let rf = without_peer(front, id);
        lemma_without_peer(front, id);
        assert forall|i: int| 0 <= i < r.len() implies swarm.contains(#[trigger] r[i]) by {
            if i < rf.len() {
                assert(r[i] == rf[i]);
                assert(front.contains(rf[i]));
                let j = choose|j: int| 0 <= j < front.len() && front[j] == rf[i];
                assert(swarm[j] == front[j]);
            } else {
                assert(r[i] == swarm[swarm.len() - 1]);
            }
        }
        assert forall|i: int| 0 <= i < swarm.len() && swarm[i].peer_id != id implies r.contains(
            #[trigger] swarm[i],
        ) by {
            if i < front.len() {
                assert(front[i] == swarm[i]);
                assert(rf.contains(front[i]));
                let j = choose|j: int| 0 <= j < rf.len() && rf[j] == front[i];
                assert(r[j] == rf[j]);
            } else {
                assert(r[r.len() - 1] == swarm[i]);
            }
        }
        if distinct_ids(swarm) {
            assert forall|a: int, b: int| 0 <= a < b < front.len() implies (#[trigger] front[a]).peer_id
                != (#[trigger] front[b]).peer_id by {
                assert(front[a] == swarm[a] && front[b] == swarm[b]);
            }
            assert forall|a: int, b: int| 0 <= a < b < r.len() implies (#[trigger] r[a]).peer_id != (
            #[trigger] r[b]).peer_id by {
                if b < rf.len() {
                    assert(r[a] == rf[a] && r[b] == rf[b]);
                } else {
                    assert(r[b] == swarm.last());
                    assert(r[a] == rf[a]);
                    assert(front.contains(rf[a]));
                    let j = choose|j: int| 0 <= j < front.len() && front[j] == rf[a];
                    assert(swarm[j] == front[j]);
                    assert(swarm[swarm.len() - 1] == swarm.last());
                }
            }
        }
    }
}

/// After an announce each peer is registered once where that was so before,
/// and the announcing peer is registered once, with the values of the
/// announce, or not at all if it left.
pub proof fn lemma_swarm_after_distinct(swarm: Seq<PeerView>, req: AnnounceRequestView)
    requires
        distinct_ids(swarm),
    ensures
        distinct_ids(swarm_after(swarm, req)),
{
    lemma_without_peer(swarm, req.peer_id);
    let rest = without_peer(swarm, req.peer_id);
    let r = swarm_after(swarm, req);
    if !is_stop(req) {
        assert forall|a: int, b: int| 0 <= a < b < r.len() implies (#[trigger] r[a]).peer_id != (
        #[trigger] r[b]).peer_id by {
            assert(r[a] == rest[a]);
            if b < rest.len() {
                assert(r[b] == rest[b]);
            }
        }
    }
}

/// A swarm in which no peer has the identifier `id` loses nothing when the
/// peers with that identifier are taken out.
pub proof fn lemma_without_absent_peer(swarm: Seq<PeerView>, id: Seq<char>)
    requires
        forall|i: int| 0 <= i < swarm.len() ==> (#[trigger] swarm[i]).peer_id != id,
    ensures
        without_peer(swarm, id) == swarm,
    decreases swarm.len(),
{
    if swarm.len() > 0 {
        let front = swarm.drop_last();
        assert forall|i: int| 0 <= i < front.len() implies (#[trigger] front[i]).peer_id != id by {
            assert(front[i] == swarm[i]);
        }
        lemma_without_absent_peer(front, id);
        assert(swarm[swarm.len() - 1].peer_id != id);
        assert(front.push(swarm.last()) =~= swarm);
    } else {
        assert(without_peer(swarm, id) =~= swarm);
    }
}

/// Announcing again replaces: of two announces of one peer only the second
/// shows in the swarm, which is what it would be had the first not been made.
pub proof fn lemma_announce_again(
    swarm: Seq<PeerView>,
    first: AnnounceRequestView,
    second: AnnounceRequestView,
)
    requires
        first.peer_id == second.peer_id,
    ensures
        swarm_after(swarm_after(swarm, first), second) == swarm_after(swarm, second),
{
    let id = first.peer_id;
    let rest = without_peer(swarm, id);
    lemma_without_peer(swarm, id);
    lemma_without_absent_peer(rest, id);
    if !is_stop(first) {
        let mid = rest.push(peer_of(first));
        assert(mid.drop_last() =~= rest);
        assert(mid.last() == peer_of(first));
        assert(without_peer(mid, id) == rest);
    }
}

/// After an announce that does not stop, the peer stands at the end of the
/// swarm with the values of the announce, and nowhere else in it.
pub proof fn lemma_announced_once(swarm: Seq<PeerView>, req: AnnounceRequestView)
    requires
        !is_stop(req),
    ensures
        swarm_after(swarm, req).len() >= 1,
        swarm_after(swarm, req).last() == peer_of(req),
        forall|i: int|
            0 <= i < swarm_after(swarm, req).len() - 1 ==> (#[trigger] swarm_after(
                swarm,
                req,
            )[i]).peer_id != req.peer_id,
{
    lemma_without_peer(swarm, req.peer_id);
    let rest = without_peer(swarm, req.peer_id);
    let r = swarm_after(swarm, req);
    assert forall|i: int| 0 <= i < r.len() - 1 implies (#[trigger] r[i]).peer_id != req.peer_id by {
        assert(r[i] == rest[i]);
    }
}

/// After an announce with the event `stopped` the peer is in the swarm no
/// more, and no other peer that announces later is told of it.
pub proof fn lemma_stopped_absent(
    swarm: Seq<PeerView>,
    stop: AnnounceRequestView,
    later: AnnounceRequestView,
)
    requires
        is_stop(stop),
        later.peer_id != stop.peer_id,
    ensures
        forall|i: int|
            0 <= i < swarm_after(swarm, stop).len() ==> (#[trigger] swarm_after(
                swarm,
                stop,
            )[i]).peer_id != stop.peer_id,
        forall|i: int|
            0 <= i < without_peer(swarm_after(swarm_after(swarm, stop), later), later.peer_id).len()
                ==> (#[trigger] without_peer(
                swarm_after(swarm_after(swarm, stop), later),
                later.peer_id,
            )[i]).peer_id != stop.peer_id,
{
    let gone = swarm_after(swarm, stop);
    lemma_without_peer(swarm, stop.peer_id);
    let next = swarm_after(gone, later);
    lemma_without_peer(gone, later.peer_id);
    let rest = without_peer(gone, later.peer_id);
    assert forall|i: int| 0 <= i < next.len() implies (#[trigger] next[i]).peer_id
        != stop.peer_id by {
        if i < rest.len() {
            assert(next[i] == rest[i]);
            assert(gone.contains(rest[i]));
        }
    }
    lemma_without_peer(next, later.peer_id);
    let told = without_peer(next, later.peer_id);
    assert forall|i: int| 0 <= i < told.len() implies (#[trigger] told[i]).peer_id
        != stop.peer_id by {
        assert(next.contains(told[i]));
    }
}

/// The peers that an answer lists are peers of the swarm other than the one
/// that asked, and the two counts together are their number.
pub proof fn lemma_response_excludes_requester(swarm: Seq<PeerView>, requester: Seq<char>)
    ensures
        announce_response(swarm, requester).peers == addresses(without_peer(swarm, requester)),
        forall|i: int|
            0 <= i < without_peer(swarm, requester).len() ==> (#[trigger] without_peer(
                swarm,
                requester,
            )[i]).peer_id != requester,
        count_complete(without_peer(swarm, requester)) + count_incomplete(
            without_peer(swarm, requester),
        ) == announce_response(swarm, requester).peers.len(),
{
    lemma_without_peer(swarm, requester);
    lemma_counts(without_peer(swarm, requester));
}

/// The peers of a swarm whose identifier is not `id`, with what is known of
/// them.
pub fn other_peers(swarm: &Vec<Peer>, id: &str) -> (r: Vec<Peer>)
    ensures
        peers_view(r@) == without_peer(peers_view(swarm@), id@),
{
    let mut kept: Vec<Peer> = Vec::new();
    let mut i: usize = 0;
    let ghost all = peers_view(swarm@);
    assert(all.take(0) =~= Seq::<PeerView>::empty());
    assert(peers_view(kept@) =~= Seq::<PeerView>::empty());
    while i < swarm.len()
        invariant
            0 <= i <= swarm.len(),
            all == peers_view(swarm@),
            peers_view(kept@) == without_peer(all.take(i as int), id@),
        decreases swarm.len() - i,
    {
        let ghost before = peers_view(kept@);
        let ghost next = all.take(i + 1);
        assert(next.drop_last() =~= all.take(i as int));
        assert(next.last() == swarm@[i as int]@);
        if !str_eq(swarm[i].peer_id.as_str(), id) {
            let p: Peer = swarm[i].clone();
            kept.push(p);
            assert(peers_view(kept@) =~= before.push(next.last()));
        }
        i += 1;
    }
    assert(all.take(i as int) =~= all);
    kept
}

/// The answer that `requester` gets on the swarm as it stands.
pub fn response_for(swarm: &Vec<Peer>, requester: &str) -> (r: TrackerAnnounceResponse)
    ensures
        r@ == announce_response(peers_view(swarm@), requester@),
{
    let others: Vec<Peer> = other_peers(swarm, requester);
    let ghost view = peers_view(others@);
    let mut infos: Vec<PeerInfo> = Vec::new();
    let mut complete: u64 = 0;
    let mut incomplete: u64 = 0;
    let mut i: usize = 0;
    assert(view.take(0) =~= Seq::<PeerView>::empty());
    while i < others.len()
        invariant
            0 <= i <= others.len(),
            view == peers_view(others@),
            infos@.len() == i,
            forall|j: int| 0 <= j < i ==> (#[trigger] infos@[j])@ == (view[j].ip, view[j].port),
            complete == count_complete(view.take(i as int)),
            incomplete == count_incomplete(view.take(i as int)),
            complete <= i,
            incomplete <= i,
        decreases others.len() - i,
    {
        let ghost next = view.take(i + 1);
        assert(next.drop_last() =~= view.take(i as int));
        assert(next.last() == others@[i as int]@);
        infos.push(PeerInfo { ip: others[i].ip.clone(), port: others[i].port });
        if others[i].left == 0 {
            complete += 1;
        } else {
            incomplete += 1;
        }
        i += 1;
    }
    assert(view.take(i as int) =~= view);
    let r = TrackerAnnounceResponse { interval: ANNOUNCE_INTERVAL, peers: infos, complete, incomplete };
    assert(r@.peers =~= addresses(view));
    r
}

/// The swarms of the tracker, each under the info hash of its torrent.
pub struct TrackerState {
    peers: StringHashMap<Vec<Peer>>,
}

impl TrackerState {
    /// The swarms as mathematical values.
    pub closed spec fn view(&self) -> Map<Seq<char>, Seq<PeerView>> {
        Map::new(
            |h: Seq<char>| self.peers@.contains_key(h),
            |h: Seq<char>| peers_view(self.peers@[h]@),
        )
    }

    /// Whether in every swarm each peer is registered once.
    pub open spec fn wf(&self) -> bool {
        forall|h: Seq<char>| #[trigger] self@.contains_key(h) ==> distinct_ids(self@[h])
    }

    /// A tracker without swarms.
    pub fn new() -> (r: TrackerState)
        ensures
            r@ == Map::<Seq<char>, Seq<PeerView>>::empty(),
            r.wf(),
    {
        let r = TrackerState { peers: StringHashMap::new() };
        assert(r@ =~= Map::<Seq<char>, Seq<PeerView>>::empty());
        r
    }

    /// Registers what the announce says and answers it. The entry that the
    /// peer had in the swarm of the torrent is taken out; unless the event is
    /// `stopped`, the peer is entered anew at the end, with the values of this
    /// announce. The answer lists the other peers of that swarm.
    pub fn announce(&mut self, req: &TrackerAnnounceRequest) -> (resp: TrackerAnnounceResponse)
        ensures
            final(self)@ == old(self)@.insert(
                req@.info_hash,
                swarm_after(swarm_of(old(self)@, req@.info_hash), req@),
            ),
            resp@ == announce_response(swarm_of(final(self)@, req@.info_hash), req@.peer_id),
            old(self).wf() ==> final(self).wf(),
    {
        let ghost before = self@;
        let ghost swarm = swarm_of(before, req@.info_hash);
        let peer = Peer {
            peer_id: req.peer_id.clone(),
            ip: match &req.ip {
                Some(ip) => ip.clone(),
                None => "127.0.0.1".to_owned(),
            },
            port: req.port,
            uploaded: match req.uploaded {
                Some(n) => n,
                None => 0,
            },
            downloaded: match req.downloaded {
                Some(n) => n,
                None => 0,
            },
            left: match req.left {
                Some(n) => n,
                None => 0,
            },
        };
        assert(peer@ == peer_of(req@));
        let stopped: bool = match &req.event {
            Some(e) => str_eq(e.as_str(), "stopped"),
            None => false,
        };
        assert(stopped == is_stop(req@));
        let mut kept: Vec<Peer> = match self.peers.get(req.info_hash.as_str()) {
            Some(list) => other_peers(list, req.peer_id.as_str()),
            None => {
                let none: Vec<Peer> = Vec::new();
                assert(peers_view(none@) =~= Seq::<PeerView>::empty());
                none
            },
        };
        assert(peers_view(kept@) == without_peer(swarm, req@.peer_id));
        if !stopped {
            let ghost rest = peers_view(kept@);
            kept.push(peer);
            assert(peers_view(kept@) =~= rest.push(peer_of(req@)));
        }
        assert(peers_view(kept@) == swarm_after(swarm, req@));
        let resp = response_for(&kept, req.peer_id.as_str());
        self.peers.insert(req.info_hash.clone(), kept);
        assert(self@ =~= before.insert(req@.info_hash, swarm_after(swarm, req@)));
        proof {
            if old(self).wf() {
                lemma_swarm_after_distinct(swarm, req@);
                assert forall|h: Seq<char>| #[trigger] self@.contains_key(h) implies distinct_ids(
                    self@[h],
                ) by {
                    if h != req@.info_hash {
                        assert(before.contains_key(h));
                    }
                }
            }
        }
        resp
    }

    /// The peers registered for `info_hash`, in registry order.
    pub fn peers_of(&self, info_hash: &str) -> (r: Vec<Peer>)
        ensures
            peers_view(r@) == swarm_of(self@, info_hash@),
    {
        match self.peers.get(info_hash) {
            Some(list) => {
                let mut out: Vec<Peer> = Vec::new();
                let mut i: usize = 0;
                while i < list.len()
                    invariant
                        0 <= i <= list.len(),
                        out@.len() == i,
                        forall|j: int| 0 <= j < i ==> (#[trigger] out@[j])@ == list@[j]@,
                    decreases list.len() - i,
                {
                    out.push(list[i].clone());
                    i += 1;
                }
                assert(peers_view(out@) =~= peers_view(list@));
                out
            },
            None => {
                let out: Vec<Peer> = Vec::new();
                assert(peers_view(out@) =~= Seq::<PeerView>::empty());
                out
            },
        }
    }
}

impl Default for TrackerState {
    fn default() -> (r: TrackerState)
        ensures
            r@ == Map::<Seq<char>, Seq<PeerView>>::empty(),
    {
        TrackerState::new()
    }
}

} // verus!
