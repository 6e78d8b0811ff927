//! What holds of the index of capabilities: it lists exactly the registered
//! nodes under the capabilities that their records name, registering keeps
//! it so, and registering the same record again changes nothing.

use vstd::prelude::*;
use std::time::SystemTime;
use crate::work_distribution::{
    bucket, indexed, pruned, registered, with_load, with_status, without_id, CapabilityView,
    ManagerView, NodeView,
};

verus! {

/// How often `c` occurs in a list of capabilities.
pub open spec fn count_of(caps: Seq<CapabilityView>, c: CapabilityView) -> nat
    decreases caps.len(),
{
    if caps.len() == 0 {
        0
    } else if caps.last() == c {
        count_of(caps.drop_last(), c) + 1
    } else {
        count_of(caps.drop_last(), c)
    }
}

/// Whether no identifier stands twice in a list.
pub open spec fn distinct(ids: Seq<Seq<char>>) -> bool {
    forall|i: int, j: int| 0 <= i < j < ids.len() ==> ids[i] != ids[j]
}

/// Whether the index and the table of nodes agree: every identifier in the
/// bucket of a capability is that of a registered node whose record names
/// the capability, every such node is in the bucket, and no node is in a
/// bucket twice.
pub open spec fn consistent(m: ManagerView) -> bool {
    &&& forall|c: CapabilityView| distinct(#[trigger] bucket(m.index, c))
    &&& forall|c: CapabilityView, i: int|
        0 <= i < bucket(m.index, c).len() ==> m.nodes.contains_key(#[trigger] bucket(m.index, c)[i])
            && count_of(m.nodes[bucket(m.index, c)[i]].capabilities, c) > 0
    &&& forall|id: Seq<char>, c: CapabilityView|
        m.nodes.contains_key(id) && #[trigger] count_of(m.nodes[id].capabilities, c) > 0
            ==> bucket(m.index, c).contains(id)
}

/// A capability occurs in a list exactly where the list contains it.
pub proof fn lemma_count_contains(caps: Seq<CapabilityView>, c: CapabilityView)
    ensures
        count_of(caps, c) > 0 <==> caps.contains(c),
    decreases caps.len(),
{
    if caps.len() > 0 {
        let front = caps.drop_last();
        lemma_count_contains(front, c);
        if caps.last() == c {
            assert(caps[caps.len() - 1] == c);
        } else if front.contains(c) {
            let i = choose|i: int| 0 <= i < front.len() && front[i] == c;
            assert(caps[i] == c);
        } else if caps.contains(c) {
            let i = choose|i: int| 0 <= i < caps.len() && caps[i] == c;
            assert(front[i] == c);
        }
    }
}

/// What `without_id` keeps: no `id`, and every other identifier of the list
/// and none else.
pub proof fn lemma_without_id(ids: Seq<Seq<char>>, id: Seq<char>)
    ensures
        forall|i: int| 0 <= i < without_id(ids, id).len() ==> #[trigger] without_id(ids, id)[i] != id,
        forall|i: int|
            0 <= i < without_id(ids, id).len() ==> ids.contains(#[trigger] without_id(ids, id)[i]),
        forall|other: Seq<char>|
            other != id && ids.contains(other) ==> #[trigger] without_id(ids, id).contains(other),
    decreases ids.len(),
{
    let r = without_id(ids, id);
    if ids.len() > 0 {
        let front = ids.drop_last();
        let rf = without_id(front, id);
        lemma_without_id(front, id);
        assert forall|i: int| 0 <= i < r.len() implies ids.contains(#[trigger] r[i]) by {
            if i < rf.len() {
                assert(r[i] == rf[i]);
                assert(front.contains(rf[i]));
                let j = choose|j: int| 0 <= j < front.len() && front[j] == rf[i];
                assert(ids[j] == front[j]);
            } else {
                assert(ids[ids.len() - 1] == r[i]);
            }
        }
        assert forall|other: Seq<char>| other != id && ids.contains(other) implies #[trigger] r.contains(
            other,
        ) by {
            let j = choose|j: int| 0 <= j < ids.len() && ids[j] == other;
            if j < front.len() {
                assert(front[j] == other);
                assert(rf.contains(other));
                let k = choose|k: int| 0 <= k < rf.len() && rf[k] == other;
                assert(r[k] == other);
            } else {
                assert(r[r.len() - 1] == other);
            }
        }
    }
}

/// A list without `id` loses nothing when `id` is taken out.
pub proof fn lemma_without_absent_id(ids: Seq<Seq<char>>, id: Seq<char>)
    requires
        forall|i: int| 0 <= i < ids.len() ==> ids[i] != id,
    ensures
        without_id(ids, id) == ids,
    decreases ids.len(),
{
    if ids.len() > 0 {
        let front = ids.drop_last();
        assert forall|i: int| 0 <= i < front.len() implies front[i] != id by {
            assert(front[i] == ids[i]);
        }
        lemma_without_absent_id(front, id);
        assert(front.push(ids.last()) =~= ids);
    } else {
        assert(without_id(ids, id) =~= ids);
    }
}

/// Taking `id` out of a list keeps it free of repetitions.
pub proof fn lemma_without_id_distinct(ids: Seq<Seq<char>>, id: Seq<char>)
    requires
        distinct(ids),
    ensures
        distinct(without_id(ids, id)),
    decreases ids.len(),
{
    let r = without_id(ids, id);
    if ids.len() > 0 {
        let front = ids.drop_last();
        let rf = without_id(front, id);
        assert forall|a: int, b: int| 0 <= a < b < front.len() implies front[a] != front[b] by {
            assert(front[a] == ids[a] && front[b] == ids[b]);
        }
        lemma_without_id_distinct(front, id);
        lemma_without_id(front, id);
        assert forall|a: int, b: int| 0 <= a < b < r.len() implies r[a] != r[b] by {
            if b < rf.len() {
                assert(r[a] == rf[a] && r[b] == rf[b]);
            } else {
                assert(r[b] == ids[ids.len() - 1]);
                assert(r[a] == rf[a]);
                assert(front.contains(rf[a]));
                let j = choose|j: int| 0 <= j < front.len() && front[j] == rf[a];
                assert(ids[j] == front[j]);
            }
        }
    }
}

/// A list that `id` was taken out of and put behind is the list that comes
/// of taking `id` out of it, and has no repetition where the list had none.
pub proof fn lemma_member_once(ids: Seq<Seq<char>>, id: Seq<char>)
    ensures
        without_id(without_id(ids, id).push(id), id) == without_id(ids, id),
        without_id(without_id(ids, id), id) == without_id(ids, id),
        distinct(ids) ==> distinct(without_id(ids, id).push(id)),
{
    let kept = without_id(ids, id);
    let with = kept.push(id);
    lemma_without_id(ids, id);
    lemma_without_absent_id(kept, id);
    assert(with.last() == id);
    assert(with.drop_last() =~= kept);
    if distinct(ids) {
        lemma_without_id_distinct(ids, id);
        assert forall|a: int, b: int| 0 <= a < b < with.len() implies with[a] != with[b] by {
            assert(with[a] == kept[a]);
            if b < kept.len() {
                assert(with[b] == kept[b]);
            }
        }
    }
}

/// What pruning does to each bucket: the buckets of the capabilities that
/// are pruned lose `id`, the others stay, and no bucket comes or goes.
pub proof fn lemma_pruned(
    index: Map<CapabilityView, Seq<Seq<char>>>,
    caps: Seq<CapabilityView>,
    id: Seq<char>,
)
    ensures
        forall|c: CapabilityView| #[trigger]
            pruned(index, caps, id).contains_key(c) == index.contains_key(c),
        forall|c: CapabilityView| #[trigger]
            bucket(pruned(index, caps, id), c) == if count_of(caps, c) > 0 {
                without_id(bucket(index, c), id)
            } else {
                bucket(index, c)
            },
    decreases caps.len(),
{
    if caps.len() > 0 {
        let before = pruned(index, caps.drop_last(), id);
        let last = caps.last();
        let after = pruned(index, caps, id);
        lemma_pruned(index, caps.drop_last(), id);
        assert forall|c: CapabilityView| #[trigger]
            bucket(after, c) == if count_of(caps, c) > 0 {
                without_id(bucket(index, c), id)
            } else {
                bucket(index, c)
            } by {
            assert(before.contains_key(c) == index.contains_key(c));
            let old = bucket(before, c);
            assert(old == if count_of(caps.drop_last(), c) > 0 {
                without_id(bucket(index, c), id)
            } else {
                bucket(index, c)
            });
            if c == last {
                if before.contains_key(c) {
                    assert(bucket(after, c) == without_id(old, id));
                    if count_of(caps.drop_last(), c) > 0 {
                        lemma_without_id(bucket(index, c), id);
                        lemma_without_absent_id(old, id);
                    }
                } else {
                    assert(bucket(index, c) =~= Seq::<Seq<char>>::empty());
                    assert(without_id(bucket(index, c), id) =~= Seq::<Seq<char>>::empty());
                }
            }
        }
        assert forall|c: CapabilityView| #[trigger]
            after.contains_key(c) == index.contains_key(c) by {
            assert(before.contains_key(c) == index.contains_key(c));
        }
    }
}

/// What indexing does to each bucket: in the bucket of a capability that is
/// named, `id` stands once, behind the other identifiers; the other buckets
/// stay; and a capability that is named has a bucket.
pub proof fn lemma_indexed(
    index: Map<CapabilityView, Seq<Seq<char>>>,
    caps: Seq<CapabilityView>,
    id: Seq<char>,
)
    ensures
        forall|c: CapabilityView| #[trigger]
            indexed(index, caps, id).contains_key(c) == (index.contains_key(c) || count_of(caps, c)
                > 0),
        forall|c: CapabilityView| #[trigger]
            bucket(indexed(index, caps, id), c) == if count_of(caps, c) > 0 {
                without_id(bucket(index, c), id).push(id)
            } else {
                bucket(index, c)
            },
    decreases caps.len(),
{
    if caps.len() > 0 {
        let before = indexed(index, caps.drop_last(), id);
        let last = caps.last();
        let after = indexed(index, caps, id);
        lemma_indexed(index, caps.drop_last(), id);
        assert forall|c: CapabilityView| #[trigger]
            bucket(after, c) == if count_of(caps, c) > 0 {
                without_id(bucket(index, c), id).push(id)
            } else {
                bucket(index, c)
            } by {
            let old = bucket(before, c);
            assert(old == if count_of(caps.drop_last(), c) > 0 {
                without_id(bucket(index, c), id).push(id)
            } else {
                bucket(index, c)
            });
            if c == last {
                assert(bucket(after, c) == without_id(old, id).push(id));
                lemma_member_once(bucket(index, c), id);
            }
        }
        assert forall|c: CapabilityView| #[trigger]
            after.contains_key(c) == (index.contains_key(c) || count_of(caps, c) > 0) by {
            assert(before.contains_key(c) == (index.contains_key(c) || count_of(
                caps.drop_last(),
                c,
            ) > 0));
        }
    }
}

/// The members of a bucket after a node is registered: those that it had
/// other than the node, and behind them the node, once, if its new record
/// names the capability.
pub open spec fn bucket_after(old: Seq<Seq<char>>, id: Seq<char>, named: bool) -> Seq<Seq<char>> {
    if named {
        without_id(old, id).push(id)
    } else {
        without_id(old, id)
    }
}

/// The bucket of a capability after a node is registered: the bucket as it
/// was without the node, and behind it the node, once, if its new record
/// names the capability.
pub proof fn lemma_registered_bucket(m: ManagerView, id: Seq<char>, info: NodeView, c: CapabilityView)
    requires
        consistent(m),
    ensures
        bucket(registered(m, id, info).index, c) == bucket_after(
            bucket(m.index, c),
            id,
            count_of(info.capabilities, c) > 0,
        ),
        registered(m, id, info).index.contains_key(c) == (m.index.contains_key(c) || count_of(
            info.capabilities,
            c,
        ) > 0),
{
    let old_bucket = bucket(m.index, c);
    lemma_member_once(old_bucket, id);
    if m.nodes.contains_key(id) {
        let base = pruned(m.index, m.nodes[id].capabilities, id);
        lemma_pruned(m.index, m.nodes[id].capabilities, id);
        lemma_indexed(base, info.capabilities, id);
        assert(base.contains_key(c) == m.index.contains_key(c));
        if !(count_of(m.nodes[id].capabilities, c) > 0) {
            assert forall|i: int| 0 <= i < old_bucket.len() implies old_bucket[i] != id by {
                assert(m.nodes.contains_key(bucket(m.index, c)[i]));
            }
            lemma_without_absent_id(old_bucket, id);
        }
        assert(bucket(base, c) == without_id(old_bucket, id));
    } else {
        lemma_indexed(m.index, info.capabilities, id);
        assert forall|i: int| 0 <= i < old_bucket.len() implies old_bucket[i] != id by {
            assert(m.nodes.contains_key(bucket(m.index, c)[i]));
        }
        lemma_without_absent_id(old_bucket, id);
    }
}

/// Registering a node keeps the index and the table of nodes in agreement;
/// in particular no bucket lists a node twice, however often the record
/// names a capability.
pub proof fn lemma_register_consistent(m: ManagerView, id: Seq<char>, info: NodeView)
    requires
        consistent(m),
    ensures
        consistent(registered(m, id, info)),
{
    let after = registered(m, id, info);
    assert forall|c: CapabilityView| distinct(#[trigger] bucket(after.index, c)) by {
        lemma_registered_bucket(m, id, info, c);
        assert(distinct(bucket(m.index, c)));
        lemma_member_once(bucket(m.index, c), id);
        lemma_without_id_distinct(bucket(m.index, c), id);
    }
    assert forall|c: CapabilityView, i: int| 0 <= i < bucket(after.index, c).len() implies
        after.nodes.contains_key(#[trigger] bucket(after.index, c)[i]) && count_of(
        after.nodes[bucket(after.index, c)[i]].capabilities,
        c,
    ) > 0 by {
        lemma_registered_bucket(m, id, info, c);
        let kept = without_id(bucket(m.index, c), id);
        lemma_without_id(bucket(m.index, c), id);
        let b = bucket(after.index, c);
        if i < kept.len() {
            assert(b[i] == kept[i]);
            assert(bucket(m.index, c).contains(kept[i]));
            let j = choose|j: int| 0 <= j < bucket(m.index, c).len() && bucket(m.index, c)[j] == kept[i];
            assert(m.nodes.contains_key(bucket(m.index, c)[j]));
        } else {
            assert(b[i] == id);
        }
    }
    assert forall|other: Seq<char>, c: CapabilityView|
        after.nodes.contains_key(other) && #[trigger] count_of(after.nodes[other].capabilities, c)
            > 0 implies bucket(after.index, c).contains(other) by {
        lemma_registered_bucket(m, id, info, c);
        let kept = without_id(bucket(m.index, c), id);
        lemma_without_id(bucket(m.index, c), id);
        let b = bucket(after.index, c);
        if other == id {
            assert(b[kept.len() as int] == id);
        } else {
            assert(m.nodes.contains_key(other) && count_of(m.nodes[other].capabilities, c) > 0);
            assert(bucket(m.index, c).contains(other));
            assert(kept.contains(other));
            let k = choose|k: int| 0 <= k < kept.len() && kept[k] == other;
            assert(b[k] == other);
        }
    }
}

/// Registering the same record again changes nothing.
pub proof fn lemma_register_idempotent(m: ManagerView, id: Seq<char>, info: NodeView)
    requires
        consistent(m),
    ensures
        registered(registered(m, id, info), id, info) == registered(m, id, info),
{
    let once = registered(m, id, info);
    let twice = registered(once, id, info);
    lemma_register_consistent(m, id, info);
    assert(twice.nodes =~= once.nodes);
    assert forall|c: CapabilityView| #[trigger]
        twice.index.contains_key(c) == once.index.contains_key(c) && bucket(twice.index, c) == bucket(
            once.index,
            c,
        ) by {
        lemma_registered_bucket(m, id, info, c);
        lemma_registered_bucket(once, id, info, c);
        lemma_member_once(bucket(m.index, c), id);
    }
    assert forall|c: CapabilityView| twice.index.contains_key(c) implies #[trigger] twice.index[c]
        == once.index[c] by {
        assert(bucket(twice.index, c) == bucket(once.index, c));
    }
    assert(twice.index =~= once.index);
}

/// Setting the load of a node, with or without the time at which it was
/// seen, keeps the index and the table of nodes in agreement.
pub proof fn lemma_status_consistent(m: ManagerView, id: Seq<char>, active: usize, now: SystemTime)
    requires
        consistent(m),
    ensures
        consistent(with_load(m, id, active)),
        consistent(with_status(m, id, active, now)),
{
    let a = with_load(m, id, active);
    let b = with_status(m, id, active, now);
    assert forall|c: CapabilityView| distinct(#[trigger] bucket(a.index, c)) && distinct(
        bucket(b.index, c),
    ) by {
        assert(distinct(bucket(m.index, c)));
    }
    assert forall|c: CapabilityView, i: int| 0 <= i < bucket(a.index, c).len() implies
        a.nodes.contains_key(#[trigger] bucket(a.index, c)[i]) && count_of(
        a.nodes[bucket(a.index, c)[i]].capabilities,
        c,
    ) > 0 by {
        assert(m.nodes.contains_key(bucket(m.index, c)[i]));
    }
    assert forall|other: Seq<char>, c: CapabilityView|
        a.nodes.contains_key(other) && #[trigger] count_of(a.nodes[other].capabilities, c)
            > 0 implies bucket(a.index, c).contains(other) by {
        assert(m.nodes.contains_key(other) && count_of(m.nodes[other].capabilities, c) > 0);
    }
    assert forall|c: CapabilityView, i: int| 0 <= i < bucket(b.index, c).len() implies
        b.nodes.contains_key(#[trigger] bucket(b.index, c)[i]) && count_of(
        b.nodes[bucket(b.index, c)[i]].capabilities,
        c,
    ) > 0 by {
        assert(m.nodes.contains_key(bucket(m.index, c)[i]));
    }
    assert forall|other: Seq<char>, c: CapabilityView|
        b.nodes.contains_key(other) && #[trigger] count_of(b.nodes[other].capabilities, c)
            > 0 implies bucket(b.index, c).contains(other) by {
        assert(m.nodes.contains_key(other) && count_of(m.nodes[other].capabilities, c) > 0);
    }
}

} // verus!
