//! Handing work to other nodes: a table of nodes with weights and loads, an
//! index from capabilities to nodes, and the weighted choice of a node.

use vstd::prelude::*;
use vstd::hash_map::StringHashMap;
use std::time::SystemTime;
use rand::Rng;
use crate::index_laws::{
    bucket_after, consistent, count_of, lemma_register_consistent, lemma_registered_bucket,
    lemma_status_consistent,
};
use crate::text::str_eq;

verus! {

/// The time of the system clock, which the library only stores.
#[verifier::external_type_specification]
#[verifier::external_body]
pub struct ExSystemTime(SystemTime);

/// Calls `SystemTime::now`. Nothing is claimed of the time that it gives.
#[verifier::external_body]
fn current_time() -> (r: SystemTime) {
    SystemTime::now()
}

/// Calls `rand::thread_rng` and `Rng::gen_range` with the range from zero up
/// to `bound`. Trusted: the number drawn lies in that range. (The generator
/// panics if the system gives it no seed.)
#[verifier::external_body]
fn random_below(bound: u128) -> (r: u128)
    requires
        bound > 0,
    ensures
        r < bound,
{
    rand::thread_rng().gen_range(0..bound)
}

/// A kind of work that a node can do.
#[derive(Debug, PartialEq, Eq, Hash)]
pub enum NodeCapability {
    /// Answering AI queries.
    AiProcessing,
    /// Serving files.
    FileServing,
    /// Tracking swarms.
    Tracker,
    /// Another kind of work, by its name.
    Custom(String),
}

/// A capability as a mathematical value.
pub enum CapabilityView {
    AiProcessing,
    FileServing,
    Tracker,
    Custom(Seq<char>),
}

impl View for NodeCapability {
    type V = CapabilityView;

    open spec fn view(&self) -> CapabilityView {
        match self {
            NodeCapability::AiProcessing => CapabilityView::AiProcessing,
            NodeCapability::FileServing => CapabilityView::FileServing,
            NodeCapability::Tracker => CapabilityView::Tracker,
            NodeCapability::Custom(name) => CapabilityView::Custom(name@),
        }
    }
}

impl Clone for NodeCapability {
    fn clone(&self) -> (r: NodeCapability)
        ensures
            r@ == self@,
    {
        match self {
            NodeCapability::AiProcessing => NodeCapability::AiProcessing,
            NodeCapability::FileServing => NodeCapability::FileServing,
            NodeCapability::Tracker => NodeCapability::Tracker,
            NodeCapability::Custom(name) => NodeCapability::Custom(name.clone()),
        }
    }
}

impl NodeCapability {
    /// Whether this is the capability `other`.
    pub fn same(&self, other: &NodeCapability) -> (r: bool)
        ensures
            r == (self@ == other@),
    {
        match (self, other) {
            (NodeCapability::AiProcessing, NodeCapability::AiProcessing) => true,
            (NodeCapability::FileServing, NodeCapability::FileServing) => true,
            (NodeCapability::Tracker, NodeCapability::Tracker) => true,
            (NodeCapability::Custom(a), NodeCapability::Custom(b)) => str_eq(a.as_str(), b.as_str()),
            _ => false,
        }
    }
}

/// The capabilities of a list as mathematical values.
pub open spec fn capabilities_view(s: Seq<NodeCapability>) -> Seq<CapabilityView> {
    Seq::new(s.len(), |i: int| s[i]@)
}

/// The number of requests that a new node takes at a time.
pub const DEFAULT_MAX_CONCURRENT: usize = 100;

/// What is known of a node that takes work. The weight is a whole number of
/// thousandths: a node that should get its plain share has the weight 1000.
#[derive(Debug)]
pub struct NodeInfo {
    pub ip: String,
    pub port: u16,
    pub capabilities: Vec<NodeCapability>,
    pub weight: u64,
    pub last_seen: SystemTime,
    pub active_requests: usize,
    pub max_concurrent: usize,
}

/// A node as a mathematical value.
pub struct NodeView {
    pub ip: Seq<char>,
    pub port: u16,
    pub capabilities: Seq<CapabilityView>,
    pub weight: u64,
    pub last_seen: SystemTime,
    pub active_requests: usize,
    pub max_concurrent: usize,
}

impl View for NodeInfo {
    type V = NodeView;

    open spec fn view(&self) -> NodeView {
        NodeView {
            ip: self.ip@,
            port: self.port,
            capabilities: capabilities_view(self.capabilities@),
            weight: self.weight,
            last_seen: self.last_seen,
            active_requests: self.active_requests,
            max_concurrent: self.max_concurrent,
        }
    }
}

/// Whether a node can take a request for `capability`: it has the capability
/// and is below its limit of requests.
pub open spec fn can_handle(node: NodeView, capability: CapabilityView) -> bool {
    node.capabilities.contains(capability) && node.active_requests < node.max_concurrent
}

/// The weight of a node scaled by the share of its limit that is free,
/// rounded down. A node without a limit keeps its weight, and one at or above
/// its limit has none.
pub open spec fn effective_weight(node: NodeView) -> nat {
    if node.max_concurrent == 0 {
        node.weight as nat
    } else if node.active_requests >= node.max_concurrent {
        0
    } else {
        (node.weight * (node.max_concurrent - node.active_requests) / (
        node.max_concurrent as int)) as nat
    }
}

/// A weight scaled by a share is a weight no greater.
pub proof fn lemma_scaled_weight(w: int, f: int, l: int)
    requires
        0 <= w <= u64::MAX,
        0 <= f <= l <= u64::MAX,
        l > 0,
    ensures
        0 <= w * f <= u64::MAX * u64::MAX,
        0 <= (w * f) / l <= w,
{
    assert(0 <= w * f <= w * l) by (nonlinear_arith)
        requires
            0 <= w,
            0 <= f <= l,
    ;
    assert(w * f <= u64::MAX * u64::MAX) by (nonlinear_arith)
        requires
            0 <= w <= u64::MAX,
            0 <= f <= u64::MAX,
    ;
    vstd::arithmetic::div_mod::lemma_div_is_ordered(w * f, w * l, l);
    vstd::arithmetic::div_mod::lemma_div_multiples_vanish(w, l);
    assert(w * l == l * w) by (nonlinear_arith);
    vstd::arithmetic::div_mod::lemma_div_pos_is_pos(w * f, l);
}

/// Copies a list of capabilities.
pub fn clone_capabilities(list: &Vec<NodeCapability>) -> (r: Vec<NodeCapability>)
    ensures
        capabilities_view(r@) == capabilities_view(list@),
{
    let mut out: Vec<NodeCapability> = Vec::new();
    let mut i: usize = 0;
    while i < list.len()
        invariant
            0 <= i <= list.len(),
            out@.len() == i,
            forall|j: int| 0 <= j < i ==> (#[trigger] out@[j])@ == list@[j]@,
        decreases list.len() - i,
    {
        out.push(list[i].clone());
        i += 1;
    }
    assert(capabilities_view(out@) =~= capabilities_view(list@));
    out
}

impl Clone for NodeInfo {
    fn clone(&self) -> (r: NodeInfo)
        ensures
            r@ == self@,
    {
        NodeInfo {
            ip: self.ip.clone(),
            port: self.port,
            capabilities: clone_capabilities(&self.capabilities),
            weight: self.weight,
            last_seen: self.last_seen,
            active_requests: self.active_requests,
            max_concurrent: self.max_concurrent,
        }
    }
}

impl NodeInfo {
    /// A node that was seen at `now`, with no request in progress and the
    /// default limit.
    pub fn seen_at(
        ip: String,
        port: u16,
        capabilities: Vec<NodeCapability>,
        weight: u64,
        now: SystemTime,
    ) -> (r: NodeInfo)
        ensures
            r@ == (NodeView {
                ip: ip@,
                port,
                capabilities: capabilities_view(capabilities@),
                weight,
                last_seen: now,
                active_requests: 0,
                max_concurrent: 100,
            }),
    {
        NodeInfo {
            ip,
            port,
            capabilities,
            weight,
            last_seen: now,
            active_requests: 0,
            max_concurrent: DEFAULT_MAX_CONCURRENT,
        }
    }

    /// A node that is seen now, with no request in progress and the default
    /// limit.
    pub fn new(ip: String, port: u16, capabilities: Vec<NodeCapability>, weight: u64) -> (r:
        NodeInfo)
        ensures
            r@ == (NodeView {
                ip: ip@,
                port,
                capabilities: capabilities_view(capabilities@),
                weight,
                last_seen: r@.last_seen,
                active_requests: 0,
                max_concurrent: 100,
            }),
    {
        NodeInfo::seen_at(ip, port, capabilities, weight, current_time())
    }

    /// Whether the node has `capability`.
    pub fn has_capability(&self, capability: &NodeCapability) -> (r: bool)
        ensures
            r == self@.capabilities.contains(capability@),
    {
        let mut i: usize = 0;
        while i < self.capabilities.len()
            invariant
                0 <= i <= self.capabilities.len(),
                forall|j: int| 0 <= j < i ==> self@.capabilities[j] != capability@,
            decreases self.capabilities.len() - i,
        {
            if self.capabilities[i].same(capability) {
                assert(self@.capabilities[i as int] == capability@);
                return true;
            }
            i += 1;
        }
        false
    }

    /// Whether the node can take a request for `capability`.
    pub fn can_handle(&self, capability: &NodeCapability) -> (r: bool)
        ensures
            r == can_handle(self@, capability@),
    {
        self.has_capability(capability) && self.active_requests < self.max_concurrent
    }

    /// The weight of the node scaled by the share of its limit that is free.
    pub fn effective_weight(&self) -> (r: u64)
        ensures
            r == effective_weight(self@),
            r <= self.weight,
    {
        if self.max_concurrent == 0 {
            self.weight
        } else if self.active_requests >= self.max_concurrent {
            0
        } else {
            let free: u128 = (self.max_concurrent - self.active_requests) as u128;
            let limit: u128 = self.max_concurrent as u128;
            let weight: u128 = self.weight as u128;
            proof {
                lemma_scaled_weight(weight as int, free as int, limit as int);
            }
            let scaled: u128 = weight * free / limit;
            scaled as u64
        }
    }
}

/// The identifiers of a list as mathematical values.
pub open spec fn ids_view(ids: Seq<String>) -> Seq<Seq<char>> {
    Seq::new(ids.len(), |i: int| ids[i]@)
}

/// The buckets of a table as mathematical values: each a capability and the
/// identifiers of its nodes.
pub open spec fn buckets_view(tables: Seq<(NodeCapability, Vec<String>)>) -> Seq<
    (CapabilityView, Seq<Seq<char>>),
> {
    Seq::new(tables.len(), |i: int| (tables[i].0@, ids_view(tables[i].1@)))
}

/// The identifiers that a table has for `capability`: those of the last
/// bucket of that capability.
pub open spec fn lookup_bucket(
    buckets: Seq<(CapabilityView, Seq<Seq<char>>)>,
    capability: CapabilityView,
) -> Option<Seq<Seq<char>>>
    decreases buckets.len(),
{
    if buckets.len() == 0 {
        None
    } else if buckets.last().0 == capability {
        Some(buckets.last().1)
    } else {
        lookup_bucket(buckets.drop_last(), capability)
    }
}

/// The index that a table stands for: each capability that has a bucket,
/// with the identifiers of its nodes in the order of their registration.
pub open spec fn index_of_buckets(buckets: Seq<(CapabilityView, Seq<Seq<char>>)>) -> Map<
    CapabilityView,
    Seq<Seq<char>>,
> {
    Map::new(
        |c: CapabilityView| lookup_bucket(buckets, c) is Some,
        |c: CapabilityView| lookup_bucket(buckets, c)->0,
    )
}

/// Putting a bucket in the place of the last bucket of its capability, or
/// behind all buckets, gives the capability these identifiers and leaves the
/// other capabilities as they were.
pub proof fn lemma_set_bucket(
    buckets: Seq<(CapabilityView, Seq<Seq<char>>)>,
    at: int,
    capability: CapabilityView,
    ids: Seq<Seq<char>>,
)
    requires
        0 <= at <= buckets.len(),
        at < buckets.len() ==> buckets[at].0 == capability,
        forall|j: int| at < j < buckets.len() ==> (#[trigger] buckets[j]).0 != capability,
    ensures
        index_of_buckets(
            if at < buckets.len() {
                buckets.update(at, (capability, ids))
            } else {
                buckets.push((capability, ids))
            },
        ) == index_of_buckets(buckets).insert(capability, ids),
{
    let after = if at < buckets.len() {
        buckets.update(at, (capability, ids))
    } else {
        buckets.push((capability, ids))
    };
    assert forall|c: CapabilityView| lookup_bucket(after, c) == if c == capability {
        Some(ids)
    } else {
        lookup_bucket(buckets, c)
    } by {
        lemma_lookup_after_set(buckets, at, capability, ids, c);
    }
    assert(index_of_buckets(after) =~= index_of_buckets(buckets).insert(capability, ids));
}

/// What a lookup finds after a bucket was put in place.
proof fn lemma_lookup_after_set(
    buckets: Seq<(CapabilityView, Seq<Seq<char>>)>,
    at: int,
    capability: CapabilityView,
    ids: Seq<Seq<char>>,
    c: CapabilityView,
)
    requires
        0 <= at <= buckets.len(),
        at < buckets.len() ==> buckets[at].0 == capability,
        forall|j: int| at < j < buckets.len() ==> (#[trigger] buckets[j]).0 != capability,
    ensures
        lookup_bucket(
            if at < buckets.len() {
                buckets.update(at, (capability, ids))
            } else {
                buckets.push((capability, ids))
            },
            c,
        ) == if c == capability {
            Some(ids)
        } else {
            lookup_bucket(buckets, c)
        },
    decreases buckets.len(),
{
    if at >= buckets.len() {
        let after = buckets.push((capability, ids));
        assert(after.drop_last() =~= buckets);
    } else {
        let after = buckets.update(at, (capability, ids));
        if at == buckets.len() - 1 {
            assert(after.drop_last() =~= buckets.drop_last());
        } else {
            let front = buckets.drop_last();
            assert(buckets[buckets.len() - 1].0 != capability);
            assert(front[at] == buckets[at]);
            assert forall|j: int| at < j < front.len() implies (#[trigger] front[j]).0
                != capability by {
                assert(front[j] == buckets[j]);
            }
            lemma_lookup_after_set(front, at, capability, ids, c);
            assert(after.drop_last() =~= front.update(at, (capability, ids)));
            assert(after.last() == buckets.last());
        }
    }
}

/// The position of the last bucket of `capability` in a table.
fn find_bucket(tables: &Vec<(NodeCapability, Vec<String>)>, capability: &NodeCapability) -> (r:
    Option<usize>)
    ensures
        match r {
            Some(i) => i < tables@.len() && tables@[i as int].0@ == capability@ && forall|j: int|
                i < j < tables@.len() ==> (#[trigger] tables@[j]).0@ != capability@,
            None => forall|j: int| 0 <= j < tables@.len() ==> (#[trigger] tables@[j]).0@
                != capability@,
        },
        match r {
            Some(i) => lookup_bucket(buckets_view(tables@), capability@) == Some(
                ids_view(tables@[i as int].1@),
            ),
            None => lookup_bucket(buckets_view(tables@), capability@) is None,
        },
{
    let mut i: usize = tables.len();
    let ghost buckets = buckets_view(tables@);
    assert(buckets.take(i as int) =~= buckets);
    while i > 0
        invariant
            0 <= i <= tables.len(),
            buckets == buckets_view(tables@),
            forall|j: int| i <= j < tables@.len() ==> (#[trigger] tables@[j]).0@ != capability@,
            lookup_bucket(buckets, capability@) == lookup_bucket(
                buckets.take(i as int),
                capability@,
            ),
        decreases i,
    {
        let ghost front = buckets.take(i as int);
        assert(front.last() == buckets[i - 1]);
        assert(front.drop_last() =~= buckets.take(i - 1));
        if tables[i - 1].0.same(capability) {
            return Some(i - 1);
        }
        i -= 1;
    }
    None
}

/// Gives `capability` the identifiers `ids` in a table and leaves the other
/// capabilities as they were.
fn set_bucket(
    tables: &mut Vec<(NodeCapability, Vec<String>)>,
    capability: NodeCapability,
    ids: Vec<String>,
)
    ensures
        index_of_buckets(buckets_view(final(tables)@)) == index_of_buckets(
            buckets_view(old(tables)@),
        ).insert(capability@, ids_view(ids@)),
{
    let ghost before = buckets_view(tables@);
    let ghost c = capability@;
    let ghost v = ids_view(ids@);
    match find_bucket(tables, &capability) {
        Some(i) => {
            proof {
                assert forall|j: int| i < j < before.len() implies (#[trigger] before[j]).0 != c by {
                    assert(before[j].0 == tables@[j].0@);
                }
                lemma_set_bucket(before, i as int, c, v);
            }
            tables[i] = (capability, ids);
            assert(buckets_view(tables@) =~= before.update(i as int, (c, v)));
        },
        None => {
            proof {
                assert forall|j: int| 0 <= j < before.len() implies (#[trigger] before[j]).0 != c by {
                    assert(before[j].0 == tables@[j].0@);
                }
                lemma_set_bucket(before, before.len() as int, c, v);
            }
            tables.push((capability, ids));
            assert(buckets_view(tables@) =~= before.push((c, v)));
        },
    }
}

/// The identifiers of `ids` other than `id`, in their order.
pub open spec fn without_id(ids: Seq<Seq<char>>, id: Seq<char>) -> Seq<Seq<char>>
    decreases ids.len(),
{
    if ids.len() == 0 {
        Seq::empty()
    } else if ids.last() == id {
        without_id(ids.drop_last(), id)
    } else {
        without_id(ids.drop_last(), id).push(ids.last())
    }
}

/// The identifiers that an index has for `capability`; none where it has no
/// bucket for it.
pub open spec fn bucket(index: Map<CapabilityView, Seq<Seq<char>>>, capability: CapabilityView) -> Seq<
    Seq<char>,
> {
    if index.contains_key(capability) {
        index[capability]
    } else {
        Seq::empty()
    }
}

/// The index after the node `id` is taken out of the bucket of each of
/// `capabilities` that has a bucket.
pub open spec fn pruned(
    index: Map<CapabilityView, Seq<Seq<char>>>,
    capabilities: Seq<CapabilityView>,
    id: Seq<char>,
) -> Map<CapabilityView, Seq<Seq<char>>>
    decreases capabilities.len(),
{
    if capabilities.len() == 0 {
        index
    } else {
        let before = pruned(index, capabilities.drop_last(), id);
        let c = capabilities.last();
        if before.contains_key(c) {
            before.insert(c, without_id(before[c], id))
        } else {
            before
        }
    }
}

/// The index after the node `id` is made a member of the bucket of each of
/// `capabilities`: it stands once in the bucket, at its end, however often
/// the capability is named.
pub open spec fn indexed(
    index: Map<CapabilityView, Seq<Seq<char>>>,
    capabilities: Seq<CapabilityView>,
    id: Seq<char>,
) -> Map<CapabilityView, Seq<Seq<char>>>
    decreases capabilities.len(),
{
    if capabilities.len() == 0 {
        index
    } else {
        let before = indexed(index, capabilities.drop_last(), id);
        let c = capabilities.last();
        before.insert(c, without_id(bucket(before, c), id).push(id))
    }
}

/// The table of nodes and the index of capabilities as mathematical values.
pub struct ManagerView {
    /// Each registered node under its identifier.
    pub nodes: Map<Seq<char>, NodeView>,
    /// For each capability the identifiers of its nodes, in order.
    pub index: Map<CapabilityView, Seq<Seq<char>>>,
}

/// The manager after a node is registered under `id`: its record replaces
/// the one that was there, the node leaves the buckets of the capabilities
/// that the old record had, and becomes a member of those of the new one,
/// once in each.
pub open spec fn registered(m: ManagerView, id: Seq<char>, info: NodeView) -> ManagerView {
    let base = if m.nodes.contains_key(id) {
        pruned(m.index, m.nodes[id].capabilities, id)
    } else {
        m.index
    };
    ManagerView { nodes: m.nodes.insert(id, info), index: indexed(base, info.capabilities, id) }
}

/// Copies the identifiers of `ids` other than `id`.
fn ids_without(ids: &Vec<String>, id: &str) -> (r: Vec<String>)
    ensures
        ids_view(r@) == without_id(ids_view(ids@), id@),
{
    let mut kept: Vec<String> = Vec::new();
    let mut i: usize = 0;
    let ghost all = ids_view(ids@);
    assert(all.take(0) =~= Seq::<Seq<char>>::empty());
    assert(ids_view(kept@) =~= Seq::<Seq<char>>::empty());
    while i < ids.len()
        invariant
            0 <= i <= ids.len(),
            all == ids_view(ids@),
            ids_view(kept@) == without_id(all.take(i as int), id@),
        decreases ids.len() - i,
    {
        let ghost before = ids_view(kept@);
        let ghost next = all.take(i + 1);
        assert(next.drop_last() =~= all.take(i as int));
        assert(next.last() == ids@[i as int]@);
        if !str_eq(ids[i].as_str(), id) {
            kept.push(ids[i].clone());
            assert(ids_view(kept@) =~= before.push(next.last()));
        }
        i += 1;
    }
    assert(all.take(i as int) =~= all);
    kept
}

/// Copies the identifiers of `ids` other than `id` and puts `id` behind them.
fn ids_with(ids: &Vec<String>, id: &str) -> (r: Vec<String>)
    ensures
        ids_view(r@) == without_id(ids_view(ids@), id@).push(id@),
{
    let mut out: Vec<String> = ids_without(ids, id);
    let ghost kept = ids_view(out@);
    out.push(id.to_owned());
    assert(ids_view(out@) =~= kept.push(id@));
    out
}

/// The nodes among `ids` that can take a request for `capability`, each with
/// its identifier, in the order of `ids`. An identifier without a record is
/// passed over.
pub open spec fn candidates_among(
    nodes: Map<Seq<char>, NodeView>,
    ids: Seq<Seq<char>>,
    capability: CapabilityView,
) -> Seq<(Seq<char>, NodeView)>
    decreases ids.len(),
{
    if ids.len() == 0 {
        Seq::empty()
    } else if nodes.contains_key(ids.last()) && can_handle(nodes[ids.last()], capability) {
        candidates_among(nodes, ids.drop_last(), capability).push((ids.last(), nodes[ids.last()]))
    } else {
        candidates_among(nodes, ids.drop_last(), capability)
    }
}

/// The nodes that can take a request for `capability`, in the order of the
/// index.
pub open spec fn candidates(m: ManagerView, capability: CapabilityView) -> Seq<(Seq<char>, NodeView)> {
    candidates_among(m.nodes, bucket(m.index, capability), capability)
}

/// The sum of the effective weights of the candidates.
pub open spec fn total_weight(c: Seq<(Seq<char>, NodeView)>) -> nat
    decreases c.len(),
{
    if c.len() == 0 {
        0
    } else {
        total_weight(c.drop_last()) + effective_weight(c.last().1)
    }
}

/// The position of the candidate that wins from position `k` on with
/// `remaining` left of the draw. The number drawn stands for a point between
/// itself and the next whole number; the weights are taken off in order, and
/// the first candidate that brings that point to zero or below wins, which is
/// the first whose weight is above what is left of the number. Where none
/// does, the first candidate of all wins.
pub open spec fn pick_from(c: Seq<(Seq<char>, NodeView)>, k: int, remaining: int) -> int
    decreases c.len() - k,
{
    if k < 0 || k >= c.len() {
        0
    } else if remaining < effective_weight(c[k].1) {
        k
    } else {
        pick_from(c, k + 1, remaining - effective_weight(c[k].1))
    }
}

/// The node that is selected for `capability` when `draw` was drawn: none
/// where there is no candidate, else the candidate that the draw picks.
pub open spec fn selection(m: ManagerView, capability: CapabilityView, draw: nat) -> Option<
    (Seq<char>, NodeView),
> {
    let c = candidates(m, capability);
    if c.len() == 0 {
        None
    } else {
        Some(c[pick_from(c, 0, draw as int)])
    }
}

/// Whether `draw` can be drawn for candidates of the total weight `total`:
/// it lies below the total, or is zero where the total is zero.
pub open spec fn draw_in_range(draw: nat, total: nat) -> bool {
    draw < total || (total == 0 && draw == 0)
}

/// A selected node as a mathematical value.
pub open spec fn selected_view(r: Option<(String, NodeInfo)>) -> Option<(Seq<char>, NodeView)> {
    match r {
        Some((id, info)) => Some((id@, info@)),
        None => None,
    }
}

/// The manager with the number of requests in progress of the node `id` set
/// to `active`. Nothing changes where no node has that identifier.
pub open spec fn with_load(m: ManagerView, id: Seq<char>, active: usize) -> ManagerView {
    if m.nodes.contains_key(id) {
        ManagerView {
            nodes: m.nodes.insert(
                id,
                NodeView {
                    ip: m.nodes[id].ip,
                    port: m.nodes[id].port,
                    capabilities: m.nodes[id].capabilities,
                    weight: m.nodes[id].weight,
                    last_seen: m.nodes[id].last_seen,
                    active_requests: active,
                    max_concurrent: m.nodes[id].max_concurrent,
                },
            ),
            index: m.index,
        }
    } else {
        m
    }
}

/// The manager with the number of requests in progress of the node `id` set
/// to `active` and the node seen at `now`. Nothing changes where no node has
/// that identifier.
pub open spec fn with_status(m: ManagerView, id: Seq<char>, active: usize, now: SystemTime) -> ManagerView {
    if m.nodes.contains_key(id) {
        ManagerView {
            nodes: m.nodes.insert(
                id,
                NodeView {
                    ip: m.nodes[id].ip,
                    port: m.nodes[id].port,
                    capabilities: m.nodes[id].capabilities,
                    weight: m.nodes[id].weight,
                    last_seen: now,
                    active_requests: active,
                    max_concurrent: m.nodes[id].max_concurrent,
                },
            ),
            index: m.index,
        }
    } else {
        m
    }
}

/// The manager once a request was handed to the node `id`: the node has one
/// more request in progress.
pub open spec fn begun(m: ManagerView, id: Seq<char>) -> ManagerView {
    with_load(m, id, (m.nodes[id].active_requests + 1) as usize)
}

/// The manager once a request that was handed to the node `id` has ended,
/// well or not: the node has one request less in progress, though not less
/// than none, and was seen at `now`.
pub open spec fn finished(m: ManagerView, id: Seq<char>, now: SystemTime) -> ManagerView {
    with_status(
        m,
        id,
        if m.nodes[id].active_requests > 0 {
            (m.nodes[id].active_requests - 1) as usize
        } else {
            0
        },
        now,
    )
}

/// Every candidate is a registered node under its identifier, has the
/// capability and is below its limit of requests.
pub proof fn lemma_candidates(
    nodes: Map<Seq<char>, NodeView>,
    ids: Seq<Seq<char>>,
    capability: CapabilityView,
)
    ensures
        candidates_among(nodes, ids, capability).len() <= ids.len(),
        forall|j: int|
            0 <= j < candidates_among(nodes, ids, capability).len() ==> {
                let c = #[trigger] candidates_among(nodes, ids, capability)[j];
                &&& nodes.contains_key(c.0)
                &&& nodes[c.0] == c.1
                &&& can_handle(c.1, capability)
                &&& ids.contains(c.0)
            },
    decreases ids.len(),
{
    if ids.len() > 0 {
        let front = ids.drop_last();
        lemma_candidates(nodes, front, capability);
        let cf = candidates_among(nodes, front, capability);
        let c = candidates_among(nodes, ids, capability);
        assert forall|j: int| 0 <= j < c.len() implies {
            let e = #[trigger] c[j];
            &&& nodes.contains_key(e.0)
            &&& nodes[e.0] == e.1
            &&& can_handle(e.1, capability)
            &&& ids.contains(e.0)
        } by {
            if j < cf.len() {
                assert(c[j] == cf[j]);
                let p = choose|p: int| 0 <= p < front.len() && front[p] == cf[j].0;
                assert(ids[p] == front[p]);
            } else {
                assert(ids[ids.len() - 1] == c[j].0);
            }
        }
    }
}

/// The draw picks one of the candidates.
pub proof fn lemma_pick_in_range(c: Seq<(Seq<char>, NodeView)>, k: int, remaining: int)
    requires
        c.len() > 0,
    ensures
        0 <= pick_from(c, k, remaining) < c.len(),
    decreases c.len() - k,
{
    if 0 <= k < c.len() && remaining >= effective_weight(c[k].1) {
        lemma_pick_in_range(c, k + 1, remaining - effective_weight(c[k].1));
    }
}

/// A draw below what is left of the total weight picks a candidate that has
/// weight.
pub proof fn lemma_pick_has_weight(c: Seq<(Seq<char>, NodeView)>, k: int, remaining: int)
    requires
        0 <= k <= c.len(),
        0 <= remaining < total_weight(c) - total_weight(c.take(k)),
    ensures
        k <= pick_from(c, k, remaining) < c.len(),
        effective_weight(c[pick_from(c, k, remaining)].1) > 0,
    decreases c.len() - k,
{
    if k == c.len() {
        assert(c.take(k) =~= c);
    } else {
        let next = c.take(k + 1);
        assert(next.drop_last() =~= c.take(k));
        assert(next.last() == c[k]);
        if remaining >= effective_weight(c[k].1) {
            lemma_pick_has_weight(c, k + 1, remaining - effective_weight(c[k].1));
        }
    }
}

/// While the number drawn lies below the total weight, a node without
/// weight is never selected.
pub proof fn lemma_selected_has_weight(m: ManagerView, capability: CapabilityView, draw: nat)
    requires
        draw < total_weight(candidates(m, capability)),
    ensures
        selection(m, capability, draw) matches Some((id, node)) && effective_weight(node) > 0,
{
    let c = candidates(m, capability);
    assert(c.take(0) =~= Seq::<(Seq<char>, NodeView)>::empty());
    lemma_pick_has_weight(c, 0, draw as int);
}

/// A selected node is registered under its identifier, has the capability
/// and has fewer requests in progress than its limit.
pub proof fn lemma_selected_is_eligible(m: ManagerView, capability: CapabilityView, draw: nat)
    ensures
        selection(m, capability, draw) matches Some((id, node)) ==> {
            &&& m.nodes.contains_key(id)
            &&& m.nodes[id] == node
            &&& node.capabilities.contains(capability)
            &&& node.active_requests < node.max_concurrent
        },
{
    let c = candidates(m, capability);
    if c.len() > 0 {
        lemma_pick_in_range(c, 0, draw as int);
        lemma_candidates(m.nodes, bucket(m.index, capability), capability);
    }
}

/// With exactly one candidate, that candidate is selected whatever is drawn.
pub proof fn lemma_single_candidate(m: ManagerView, capability: CapabilityView, draw: nat)
    requires
        candidates(m, capability).len() == 1,
    ensures
        selection(m, capability, draw) == Some(candidates(m, capability)[0]),
{
    lemma_pick_in_range(candidates(m, capability), 0, draw as int);
}

/// A node is selected exactly where there is a candidate.
pub proof fn lemma_selection_succeeds(m: ManagerView, capability: CapabilityView, draw: nat)
    ensures
        selection(m, capability, draw) is Some <==> candidates(m, capability).len() > 0,
{
}

/// Handing a request to a selected node and ending it, well or not, leaves
/// the node with as many requests in progress as before, and leaves every
/// other node and the index as they were.
pub proof fn lemma_delegation_restores_load(
    m: ManagerView,
    capability: CapabilityView,
    draw: nat,
    now: SystemTime,
)
    ensures
        selection(m, capability, draw) matches Some((id, node)) ==> {
            let after = finished(begun(m, id), id, now);
            &&& after.nodes.dom() == m.nodes.dom()
            &&& after.nodes[id].active_requests == m.nodes[id].active_requests
            &&& after.index == m.index
            &&& forall|other: Seq<char>|
                m.nodes.contains_key(other) && other != id ==> after.nodes[other] == m.nodes[other]
        },
{
    lemma_selected_is_eligible(m, capability, draw);
    match selection(m, capability, draw) {
        Some((id, node)) => {
            let after = finished(begun(m, id), id, now);
            assert(after.nodes.dom() =~= m.nodes.dom());
        },
        None => {},
    }
}

/// The nodes that take work, and for each capability the nodes that have it.
pub struct WorkDistributionManager {
    nodes: StringHashMap<NodeInfo>,
    capability_tables: Vec<(NodeCapability, Vec<String>)>,
}

impl WorkDistributionManager {
    /// The manager as a mathematical value.
    pub closed spec fn view(&self) -> ManagerView {
        ManagerView {
            nodes: Map::new(
                |id: Seq<char>| self.nodes@.contains_key(id),
                |id: Seq<char>| self.nodes@[id]@,
            ),
            index: index_of_buckets(buckets_view(self.capability_tables@)),
        }
    }

    /// A manager without nodes.
    pub fn new() -> (r: WorkDistributionManager)
        ensures
            r@ == (ManagerView { nodes: Map::empty(), index: Map::empty() }),
            consistent(r@),
    {
        let r = WorkDistributionManager { nodes: StringHashMap::new(), capability_tables: Vec::new() };
        assert(r@.nodes =~= Map::<Seq<char>, NodeView>::empty());
        assert(r@.index =~= Map::<CapabilityView, Seq<Seq<char>>>::empty());
        assert forall|c: CapabilityView| bucket(r@.index, c).len() == 0 by {}
        r
    }

    /// Registers a node under `node_id`, in place of the record that the
    /// identifier had, and brings the index of capabilities in line with the
    /// new record: the node leaves every bucket, and stands once at the end
    /// of the bucket of each capability that the new record names, however
    /// often it names it.
    pub fn register_node(&mut self, node_id: String, node_info: NodeInfo)
        ensures
            final(self)@ == registered(old(self)@, node_id@, node_info@),
            consistent(old(self)@) ==> consistent(final(self)@),
            consistent(old(self)@) ==> forall|c: CapabilityView| #[trigger]
                bucket(final(self)@.index, c) == bucket_after(
                    bucket(old(self)@.index, c),
                    node_id@,
                    count_of(node_info@.capabilities, c) > 0,
                ),
    {
        let ghost before = self@;
        let ghost id = node_id@;
        let ghost nodes = self.nodes@;
        match self.nodes.get(node_id.as_str()) {
            Some(old_info) => {
                let ghost caps = old_info@.capabilities;
                assert(caps == before.nodes[id].capabilities);
                let mut i: usize = 0;
                assert(caps.take(0) =~= Seq::<CapabilityView>::empty());
                while i < old_info.capabilities.len()
                    invariant
                        0 <= i <= old_info.capabilities.len(),
                        caps == capabilities_view(old_info.capabilities@),
                        id == node_id@,
                        self.nodes@ == nodes,
                        index_of_buckets(buckets_view(self.capability_tables@)) == pruned(
                            before.index,
                            caps.take(i as int),
                            id,
                        ),
                    decreases old_info.capabilities.len() - i,
                {
                    let ghost next = caps.take(i + 1);
                    assert(next.drop_last() =~= caps.take(i as int));
                    assert(next.last() == old_info.capabilities@[i as int]@);
                    let cap: &NodeCapability = &old_info.capabilities[i];
                    match find_bucket(&self.capability_tables, cap) {
                        Some(at) => {
                            let kept: Vec<String> = ids_without(
                                &self.capability_tables[at].1,
                                node_id.as_str(),
                            );
                            set_bucket(&mut self.capability_tables, cap.clone(), kept);
                        },
                        None => {},
                    }
                    i += 1;
                }
                assert(caps.take(i as int) =~= caps);
            },
            None => {},
        }
        let ghost base = index_of_buckets(buckets_view(self.capability_tables@));
        let ghost caps = node_info@.capabilities;
        let mut i: usize = 0;
        assert(caps.take(0) =~= Seq::<CapabilityView>::empty());
        while i < node_info.capabilities.len()
            invariant
                0 <= i <= node_info.capabilities.len(),
                caps == capabilities_view(node_info.capabilities@),
                id == node_id@,
                self.nodes@ == nodes,
                index_of_buckets(buckets_view(self.capability_tables@)) == indexed(
                    base,
                    caps.take(i as int),
                    id,
                ),
            decreases node_info.capabilities.len() - i,
        {
            let ghost next = caps.take(i + 1);
            assert(next.drop_last() =~= caps.take(i as int));
            assert(next.last() == node_info.capabilities@[i as int]@);
            let cap: &NodeCapability = &node_info.capabilities[i];
            let ids: Vec<String> = match find_bucket(&self.capability_tables, cap) {
                Some(at) => ids_with(&self.capability_tables[at].1, node_id.as_str()),
                None => {
                    let none: Vec<String> = Vec::new();
                    assert(ids_view(none@) =~= Seq::<Seq<char>>::empty());
                    ids_with(&none, node_id.as_str())
                },
            };
            set_bucket(&mut self.capability_tables, cap.clone(), ids);
            i += 1;
        }
        assert(caps.take(i as int) =~= caps);
        self.nodes.insert(node_id, node_info);
        assert(self@.nodes =~= before.nodes.insert(id, node_info@));
        proof {
            if consistent(before) {
                lemma_register_consistent(before, id, node_info@);
                assert forall|c: CapabilityView| #[trigger]
                    bucket(self@.index, c) == bucket_after(
                        bucket(before.index, c),
                        id,
                        count_of(node_info@.capabilities, c) > 0,
                    ) by {
                    lemma_registered_bucket(before, id, node_info@, c);
                }
            }
        }
    }
}

impl WorkDistributionManager {
    /// The candidates for `capability`, each with its identifier and its
    /// effective weight, in the order of the index.
    fn candidate_list(&self, capability: &NodeCapability) -> (r: Vec<(String, u64)>)
        ensures
            r@.len() == candidates(self@, capability@).len(),
            forall|j: int|
                0 <= j < r@.len() ==> (#[trigger] r@[j]).0@ == candidates(self@, capability@)[j].0
                    && r@[j].1 == effective_weight(candidates(self@, capability@)[j].1),
    {
        let mut found: Vec<(String, u64)> = Vec::new();
        match find_bucket(&self.capability_tables, capability) {
            None => {
                assert(bucket(self@.index, capability@) =~= Seq::<Seq<char>>::empty());
                found
            },
            Some(at) => {
                let ids: &Vec<String> = &self.capability_tables[at].1;
                let ghost all = ids_view(ids@);
                assert(bucket(self@.index, capability@) == all);
                let ghost nodes = self@.nodes;
                let ghost mut c: Seq<(Seq<char>, NodeView)> = Seq::empty();
                assert(all.take(0) =~= Seq::<Seq<char>>::empty());
                let mut i: usize = 0;
                while i < ids.len()
                    invariant
                        0 <= i <= ids.len(),
                        all == ids_view(ids@),
                        nodes == self@.nodes,
                        c == candidates_among(nodes, all.take(i as int), capability@),
                        found@.len() == c.len(),
                        forall|j: int|
                            0 <= j < found@.len() ==> (#[trigger] found@[j]).0@ == c[j].0
                                && found@[j].1 == effective_weight(c[j].1),
                    decreases ids.len() - i,
                {
                    let ghost next = all.take(i + 1);
                    assert(next.drop_last() =~= all.take(i as int));
                    assert(next.last() == ids@[i as int]@);
                    match self.nodes.get(ids[i].as_str()) {
                        Some(node) => {
                            assert(nodes[ids@[i as int]@] == node@);
                            if node.can_handle(capability) {
                                let w: u64 = node.effective_weight();
                                found.push((ids[i].clone(), w));
                                proof {
                                    c = c.push((ids@[i as int]@, node@));
                                }
                            }
                        },
                        None => {},
                    }
                    i += 1;
                }
                assert(all.take(i as int) =~= all);
                found
            },
        }
    }

    /// The candidate that `draw` picks from `list`, with its record.
    fn pick_candidate(&self, capability: &NodeCapability, list: &Vec<(String, u64)>, draw: u128) -> (r:
        Option<(String, NodeInfo)>)
        requires
            list@.len() == candidates(self@, capability@).len(),
            forall|j: int|
                0 <= j < list@.len() ==> (#[trigger] list@[j]).0@ == candidates(
                    self@,
                    capability@,
                )[j].0 && list@[j].1 == effective_weight(candidates(self@, capability@)[j].1),
        ensures
            selected_view(r) == selection(self@, capability@, draw as nat),
    {
        let ghost c = candidates(self@, capability@);
        if list.len() == 0 {
            return None;
        }
        let mut k: usize = 0;
        let mut remaining: u128 = draw;
        let mut chosen: usize = 0;
        let mut done: bool = false;
        while k < list.len() && !done
            invariant
                0 <= k <= list.len(),
                list@.len() == c.len(),
                c.len() > 0,
                forall|j: int| 0 <= j < list@.len() ==> (#[trigger] list@[j]).1 == effective_weight(c[j].1),
                done ==> chosen < list.len() && pick_from(c, 0, draw as int) == chosen,
                !done ==> chosen == 0 && pick_from(c, 0, draw as int) == pick_from(
                    c,
                    k as int,
                    remaining as int,
                ),
            decreases list.len() - k + (if done { 0int } else { 1int }),
        {
            let w: u128 = list[k].1 as u128;
            if remaining < w {
                chosen = k;
                done = true;
            } else {
                remaining = remaining - w;
                k += 1;
            }
        }
        proof {
            lemma_candidates(self@.nodes, bucket(self@.index, capability@), capability@);
            assert(pick_from(c, 0, draw as int) == chosen);
            assert(self@.nodes.contains_key(c[chosen as int].0));
        }
        match self.nodes.get(list[chosen].0.as_str()) {
            Some(node) => Some((list[chosen].0.clone(), node.clone())),
            None => None,
        }
    }

    /// The node that is selected for `capability` when `draw` was drawn.
    pub fn select_with_draw(&self, capability: &NodeCapability, draw: u128) -> (r: Option<
        (String, NodeInfo),
    >)
        ensures
            selected_view(r) == selection(self@, capability@, draw as nat),
    {
        let list: Vec<(String, u64)> = self.candidate_list(capability);
        self.pick_candidate(capability, &list, draw)
    }

    /// The sum of the effective weights of the candidates for `capability`.
    pub fn total_weight(&self, capability: &NodeCapability) -> (r: u128)
        ensures
            r == total_weight(candidates(self@, capability@)),
    {
        let list: Vec<(String, u64)> = self.candidate_list(capability);
        let ghost c = candidates(self@, capability@);
        let mut total: u128 = 0;
        let mut i: usize = 0;
        assert(c.take(0) =~= Seq::<(Seq<char>, NodeView)>::empty());
        while i < list.len()
            invariant
                0 <= i <= list.len(),
                list@.len() == c.len(),
                forall|j: int| 0 <= j < list@.len() ==> (#[trigger] list@[j]).1 == effective_weight(c[j].1),
                total == total_weight(c.take(i as int)),
                total <= i * 0xffff_ffff_ffff_ffff,
            decreases list.len() - i,
        {
            let ghost next = c.take(i + 1);
            assert(next.drop_last() =~= c.take(i as int));
            assert(next.last() == c[i as int]);
            total = total + (list[i].1 as u128);
            i += 1;
        }
        assert(c.take(i as int) =~= c);
        total
    }

    /// Selects a node for `capability` by a weighted random draw among the
    /// nodes that can take a request for it: each is taken with the share
    /// that its effective weight has in the sum of the effective weights.
    /// Where that sum is zero nothing is drawn and the first candidate is
    /// taken.
    pub fn select_node(&self, capability: &NodeCapability) -> (r: Option<(String, NodeInfo)>)
        ensures
            exists|draw: nat|
                draw_in_range(draw, total_weight(candidates(self@, capability@))) && selected_view(r)
                    == #[trigger] selection(self@, capability@, draw),
            r is Some <==> candidates(self@, capability@).len() > 0,
            r matches Some((id, node)) ==> self@.nodes.contains_key(id@) && self@.nodes[id@]
                == node@ && can_handle(node@, capability@),
    {
        let total: u128 = self.total_weight(capability);
        let draw: u128 = if total > 0 {
            random_below(total)
        } else {
            0
        };
        let r = self.select_with_draw(capability, draw);
        proof {
            lemma_selected_is_eligible(self@, capability@, draw as nat);
            assert(draw_in_range(draw as nat, total_weight(candidates(self@, capability@))));
        }
        r
    }

    /// Sets the number of requests in progress of a node, and the time at
    /// which it was seen if one is given.
    fn set_status(&mut self, node_id: &str, active_requests: usize, seen: Option<SystemTime>)
        ensures
            final(self)@ == match seen {
                Some(now) => with_status(old(self)@, node_id@, active_requests, now),
                None => with_load(old(self)@, node_id@, active_requests),
            },
            consistent(old(self)@) ==> consistent(final(self)@),
    {
        let ghost before = self@;
        proof {
            if consistent(before) {
                match seen {
                    Some(now) => {
                        lemma_status_consistent(before, node_id@, active_requests, now);
                    },
                    None => {
                        let ghost any = before.nodes[node_id@].last_seen;
                        lemma_status_consistent(before, node_id@, active_requests, any);
                    },
                }
            }
        }
        match self.nodes.get(node_id) {
            Some(node) => {
                let mut changed: NodeInfo = node.clone();
                changed.active_requests = active_requests;
                match seen {
                    Some(now) => {
                        changed.last_seen = now;
                    },
                    None => {},
                }
                self.nodes.insert(node_id.to_owned(), changed);
                assert(self@.nodes =~= before.nodes.insert(node_id@, changed@));
            },
            None => {},
        }
    }

    /// Selects a node for `capability` as `draw` decides and counts one more
    /// request in progress for it. Gives the node as it was selected.
    pub fn begin_delegation_with(&mut self, capability: &NodeCapability, draw: u128) -> (r: Option<
        (String, NodeInfo),
    >)
        ensures
            selected_view(r) == selection(old(self)@, capability@, draw as nat),
            final(self)@ == match selection(old(self)@, capability@, draw as nat) {
                Some((id, node)) => begun(old(self)@, id),
                None => old(self)@,
            },
            consistent(old(self)@) ==> consistent(final(self)@),
    {
        let r = self.select_with_draw(capability, draw);
        proof {
            lemma_selected_is_eligible(self@, capability@, draw as nat);
        }
        match &r {
            Some((id, node)) => {
                self.set_status(id.as_str(), node.active_requests + 1, None);
            },
            None => {},
        }
        r
    }

    /// Selects a node for `capability` by a weighted random draw and counts
    /// one more request in progress for it. Gives the node as it was
    /// selected, or `None` where no node can take the request.
    pub fn begin_delegation(&mut self, capability: &NodeCapability) -> (r: Option<(String, NodeInfo)>)
        ensures
            exists|draw: nat|
                draw_in_range(draw, total_weight(candidates(old(self)@, capability@)))
                    && selected_view(r) == #[trigger] selection(old(self)@, capability@, draw)
                    && final(self)@ == match selection(old(self)@, capability@, draw) {
                    Some((id, node)) => begun(old(self)@, id),
                    None => old(self)@,
                },
            r is Some <==> candidates(old(self)@, capability@).len() > 0,
            consistent(old(self)@) ==> consistent(final(self)@),
    {
        let total: u128 = self.total_weight(capability);
        let draw: u128 = if total > 0 {
            random_below(total)
        } else {
            0
        };
        assert(draw_in_range(draw as nat, total_weight(candidates(self@, capability@))));
        self.begin_delegation_with(capability, draw)
    }

    /// Counts one request less in progress for the node `node_id`, though
    /// not less than none, and notes that the node was seen at `now`. This
    /// is done after a delegated request, whether it went well or not.
    pub fn finish_delegation_at(&mut self, node_id: &str, now: SystemTime)
        ensures
            final(self)@ == finished(old(self)@, node_id@, now),
            consistent(old(self)@) ==> consistent(final(self)@),
    {
        let active: usize = match self.nodes.get(node_id) {
            Some(node) => if node.active_requests > 0 {
                node.active_requests - 1
            } else {
                0
            },
            None => 0,
        };
        self.set_status(node_id, active, Some(now));
    }

    /// Counts one request less in progress for the node `node_id`, though
    /// not less than none, and notes that the node was seen now.
    pub fn finish_delegation(&mut self, node_id: &str)
        ensures
            exists|now: SystemTime| final(self)@ == #[trigger] finished(old(self)@, node_id@, now),
            consistent(old(self)@) ==> consistent(final(self)@),
    {
        let now: SystemTime = current_time();
        self.finish_delegation_at(node_id, now);
        assert(self@ == finished(old(self)@, node_id@, now));
    }

    /// Sets the number of requests in progress of a node and notes that it
    /// was seen at `now`. Nothing changes where no node has that identifier.
    pub fn update_node_status_at(&mut self, node_id: &str, active_requests: usize, now: SystemTime)
        ensures
            final(self)@ == with_status(old(self)@, node_id@, active_requests, now),
            consistent(old(self)@) ==> consistent(final(self)@),
    {
        self.set_status(node_id, active_requests, Some(now));
    }

    /// Sets the number of requests in progress of a node and notes that it
    /// was seen now. Nothing changes where no node has that identifier.
    pub fn update_node_status(&mut self, node_id: &str, active_requests: usize)
        ensures
            exists|now: SystemTime|
                final(self)@ == #[trigger] with_status(old(self)@, node_id@, active_requests, now),
            consistent(old(self)@) ==> consistent(final(self)@),
    {
        let now: SystemTime = current_time();
        self.set_status(node_id, active_requests, Some(now));
        assert(self@ == with_status(old(self)@, node_id@, active_requests, now));
    }
}

/// The nodes among `ids` that are registered, each with its identifier, in
/// the order of `ids`.
pub open spec fn members_among(nodes: Map<Seq<char>, NodeView>, ids: Seq<Seq<char>>) -> Seq<
    (Seq<char>, NodeView),
>
    decreases ids.len(),
{
    if ids.len() == 0 {
        Seq::empty()
    } else if nodes.contains_key(ids.last()) {
        members_among(nodes, ids.drop_last()).push((ids.last(), nodes[ids.last()]))
    } else {
        members_among(nodes, ids.drop_last())
    }
}

/// A list of nodes with their identifiers as mathematical values.
pub open spec fn members_view(list: Seq<(String, NodeInfo)>) -> Seq<(Seq<char>, NodeView)> {
    Seq::new(list.len(), |i: int| (list[i].0@, list[i].1@))
}

impl WorkDistributionManager {
    /// The registered nodes that the index has for `capability`, in the
    /// order of the index, whether they can take a request or not.
    pub fn get_nodes_for_capability(&self, capability: &NodeCapability) -> (r: Vec<(String, NodeInfo)>)
        ensures
            members_view(r@) == members_among(self@.nodes, bucket(self@.index, capability@)),
    {
        let mut out: Vec<(String, NodeInfo)> = Vec::new();
        assert(members_view(out@) =~= Seq::<(Seq<char>, NodeView)>::empty());
        match find_bucket(&self.capability_tables, capability) {
            None => {
                assert(bucket(self@.index, capability@) =~= Seq::<Seq<char>>::empty());
                out
            },
            Some(at) => {
                let ids: &Vec<String> = &self.capability_tables[at].1;
                let ghost all = ids_view(ids@);
                assert(bucket(self@.index, capability@) == all);
                let ghost nodes = self@.nodes;
                assert(all.take(0) =~= Seq::<Seq<char>>::empty());
                let mut i: usize = 0;
                while i < ids.len()
                    invariant
                        0 <= i <= ids.len(),
                        all == ids_view(ids@),
                        nodes == self@.nodes,
                        members_view(out@) == members_among(nodes, all.take(i as int)),
                    decreases ids.len() - i,
                {
                    let ghost next = all.take(i + 1);
                    let ghost before = members_view(out@);
                    assert(next.drop_last() =~= all.take(i as int));
                    assert(next.last() == ids@[i as int]@);
                    match self.nodes.get(ids[i].as_str()) {
                        Some(node) => {
                            assert(nodes[ids@[i as int]@] == node@);
                            out.push((ids[i].clone(), node.clone()));
                            assert(members_view(out@) =~= before.push((ids@[i as int]@, node@)));
                        },
                        None => {},
                    }
                    i += 1;
                }
                assert(all.take(i as int) =~= all);
                out
            },
        }
    }

    /// The record of the node `node_id`, if one is registered.
    pub fn get_node(&self, node_id: &str) -> (r: Option<NodeInfo>)
        ensures
            match r {
                Some(node) => self@.nodes.contains_key(node_id@) && self@.nodes[node_id@] == node@,
                None => !self@.nodes.contains_key(node_id@),
            },
    {
        match self.nodes.get(node_id) {
            Some(node) => Some(node.clone()),
            None => None,
        }
    }
}

impl Default for WorkDistributionManager {
    fn default() -> (r: WorkDistributionManager)
        ensures
            r@ == (ManagerView { nodes: Map::empty(), index: Map::empty() }),
    {
        WorkDistributionManager::new()
    }
}

} // verus!
