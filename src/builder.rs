use vstd::prelude::*;
use crate::registry::{footprint_of, ContractModel, Registry};
use crate::types::{hazard, EngineError, Footprint, Slot, Transaction, Word};

verus! {

/// A transaction placed in the graph: its identifier (arrival order, from 1),
/// the transaction, its resolved footprint, and the identifiers of the earlier
/// transactions that it must follow.
#[derive(Clone, Debug)]
pub struct TransactionNode {
    pub id: u64,
    pub transaction: Transaction,
    pub footprint: Footprint,
    pub dependencies: Vec<u64>,
}

/// The finished graph: all nodes in arrival order (the node with identifier
/// `i` at index `i - 1`), and the frontier, the identifiers of the nodes on
/// which no node depends, ascending.
pub struct Net {
    pub nodes: Vec<TransactionNode>,
    pub frontier: Vec<u64>,
}

/// Whether `a` is named as a dependency of node `b`.
pub open spec fn has_edge(nodes: Seq<TransactionNode>, b: int, a: int) -> bool {
    1 <= b <= nodes.len() && exists|k: int|
        0 <= k < nodes[b - 1].dependencies@.len() && #[trigger] nodes[b - 1].dependencies@[k] as int == a
}

/// The well-formedness of a graph: identifiers follow arrival order, every
/// edge points to a strictly smaller identifier, a node names each dependency
/// once, and every edge stands for a hazard between the two footprints.
pub open spec fn net_wf(nodes: Seq<TransactionNode>) -> bool {
    &&& forall|i: int| 0 <= i < nodes.len() ==> (#[trigger] nodes[i]).id == i + 1
    &&& forall|i: int| 0 <= i < nodes.len() ==> (#[trigger] nodes[i]).dependencies@.no_duplicates()
    &&& forall|i: int, k: int|
        0 <= i < nodes.len() && 0 <= k < nodes[i].dependencies@.len() ==> {
            let d = #[trigger] nodes[i].dependencies@[k];
            1 <= d <= i && hazard(nodes[d - 1].footprint, nodes[i].footprint)
        }
}

/// Whether some node names identifier `a` as a dependency.
pub open spec fn is_dependency(nodes: Seq<TransactionNode>, a: int) -> bool {
    exists|i: int| 0 <= i < nodes.len() && #[trigger] nodes[i].dependencies@.contains(a as u64)
}

/// The frontier of a graph, ascending: every node that no node depends on.
pub open spec fn is_frontier(nodes: Seq<TransactionNode>, f: Seq<u64>) -> bool {
    &&& forall|k: int| 0 <= k < f.len() ==> 1 <= #[trigger] f[k] <= nodes.len()
    &&& forall|k: int, l: int| 0 <= k < l < f.len() ==> f[k] < f[l]
    &&& forall|a: int|
        1 <= a <= nodes.len() ==> (f.contains(a as u64) <==> !is_dependency(nodes, a))
}

/// Per-slot hazard bookkeeping: the last transaction that wrote the slot and
/// the transactions that read it since.
struct SlotState {
    slot: Slot,
    last_writer: Option<u64>,
    readers: Vec<u64>,
}

/// The footprint of identifier `id`, where `id == nodes.len() + 1` is the
/// transaction being added.
spec fn fp_at(nodes: Seq<TransactionNode>, pending: Footprint, id: int) -> Footprint {
    if id == nodes.len() + 1 {
        pending
    } else {
        nodes[id - 1].footprint
    }
}

/// A slot's bookkeeping names only earlier transactions, or the one being
/// added, up to `lw_top` for the last writer and `rd_top` for readers, each of
/// which touches the slot as recorded.
spec fn entry_ok(st: SlotState, nodes: Seq<TransactionNode>, pending: Footprint, lw_top: int, rd_top: int) -> bool {
    &&& st.last_writer matches Some(w) ==> 1 <= w <= lw_top && fp_at(nodes, pending, w as int).writes@.contains(st.slot)
    &&& forall|k: int|
        0 <= k < st.readers@.len() ==> {
            let r = #[trigger] st.readers@[k];
            1 <= r <= rd_top && fp_at(nodes, pending, r as int).reads@.contains(st.slot)
        }
}

spec fn table_ok(slots: Seq<SlotState>, nodes: Seq<TransactionNode>, pending: Footprint, lw_top: int, rd_top: int) -> bool {
    forall|j: int| 0 <= j < slots.len() ==> entry_ok(#[trigger] slots[j], nodes, pending, lw_top, rd_top)
}

proof fn lemma_table_update(slots: Seq<SlotState>, j: int, st: SlotState, nodes: Seq<TransactionNode>, pending: Footprint, lw_top: int, rd_top: int)
    requires
        table_ok(slots, nodes, pending, lw_top, rd_top),
        0 <= j < slots.len(),
        entry_ok(st, nodes, pending, lw_top, rd_top),
    ensures
        table_ok(slots.update(j, st), nodes, pending, lw_top, rd_top),
{
    assert forall|i: int| 0 <= i < slots.len() implies entry_ok(#[trigger] slots.update(j, st)[i], nodes, pending, lw_top, rd_top) by {
        if i != j {
            assert(entry_ok(slots[i], nodes, pending, lw_top, rd_top));
        }
    }
}

proof fn lemma_table_push(slots: Seq<SlotState>, st: SlotState, nodes: Seq<TransactionNode>, pending: Footprint, lw_top: int, rd_top: int)
    requires
        table_ok(slots, nodes, pending, lw_top, rd_top),
        entry_ok(st, nodes, pending, lw_top, rd_top),
    ensures
        table_ok(slots.push(st), nodes, pending, lw_top, rd_top),
{
    assert forall|i: int| 0 <= i < slots.len() + 1 implies entry_ok(#[trigger] slots.push(st)[i], nodes, pending, lw_top, rd_top) by {
        if i < slots.len() {
            assert(entry_ok(slots[i], nodes, pending, lw_top, rd_top));
        }
    }
}

proof fn lemma_table_widen(slots: Seq<SlotState>, nodes: Seq<TransactionNode>, pending: Footprint, lw_top: int, rd_top: int, lw2: int)
    requires
        table_ok(slots, nodes, pending, lw_top, rd_top),
        lw_top <= lw2,
    ensures
        table_ok(slots, nodes, pending, lw2, rd_top),
{
    assert forall|i: int| 0 <= i < slots.len() implies entry_ok(#[trigger] slots[i], nodes, pending, lw2, rd_top) by {
        assert(entry_ok(slots[i], nodes, pending, lw_top, rd_top));
    }
}

/// Once the pending transaction is appended, the bookkeeping speaks of the
/// appended node.
proof fn lemma_table_commit(slots: Seq<SlotState>, nodes: Seq<TransactionNode>, pending: Footprint, node: TransactionNode, other: Footprint)
    requires
        table_ok(slots, nodes, pending, nodes.len() + 1 as int, nodes.len() + 1 as int),
        node.footprint == pending,
    ensures
        table_ok(slots, nodes.push(node), other, nodes.len() + 1 as int, nodes.len() + 1 as int),
{
    let nn = nodes.push(node);
    assert forall|i: int| 0 <= i < slots.len() implies entry_ok(#[trigger] slots[i], nn, other, nodes.len() + 1 as int, nodes.len() + 1 as int) by {
        let st = slots[i];
        assert(entry_ok(st, nodes, pending, nodes.len() + 1 as int, nodes.len() + 1 as int));
        assert forall|x: int| 1 <= x <= nodes.len() + 1 implies fp_at(nn, other, x) == fp_at(nodes, pending, x) by {
            if x <= nodes.len() {
                assert(nn[x - 1] == nodes[x - 1]);
            }
        }
        assert forall|k: int| 0 <= k < st.readers@.len() implies {
            let r = #[trigger] st.readers@[k];
            1 <= r <= nodes.len() + 1 && fp_at(nn, other, r as int).reads@.contains(st.slot)
        } by {
            let r = st.readers@[k];
            assert(fp_at(nn, other, r as int) == fp_at(nodes, pending, r as int));
        }
    }
}

spec fn deps_ok(deps: Seq<u64>, nodes: Seq<TransactionNode>, pending: Footprint) -> bool {
    &&& deps.no_duplicates()
    &&& forall|k: int|
        0 <= k < deps.len() ==> {
            let d = #[trigger] deps[k];
            1 <= d <= nodes.len() && hazard(nodes[d - 1].footprint, pending)
        }
}

/// Whether a path leads from node `b` to node `a` (a node reaches itself).
pub open spec fn reaches(nodes: Seq<TransactionNode>, b: int, a: int) -> bool {
    exists|p: Seq<u64>| #[trigger] is_path(nodes, p) && p[0] as int == b && p.last() as int == a
}

/// Every hazard between two transactions is honoured: the later one reaches
/// the earlier one along edges.
pub open spec fn hazard_complete(nodes: Seq<TransactionNode>) -> bool {
    forall|a: int, b: int|
        1 <= a < b <= nodes.len() && #[trigger] hazard(nodes[a - 1].footprint, nodes[b - 1].footprint)
            ==> reaches(nodes, b, a)
}

/// Reachability while transaction `t` is being added with the dependencies
/// `deps` collected so far.
spec fn reach_p(nodes: Seq<TransactionNode>, deps: Seq<u64>, t: int, w: int, x: int) -> bool {
    if w == t {
        exists|k: int| 0 <= k < deps.len() && reaches(nodes, #[trigger] deps[k] as int, x)
    } else {
        reaches(nodes, w, x)
    }
}

spec fn covers_w(st: SlotState, nodes: Seq<TransactionNode>, deps: Seq<u64>, t: int, x: int) -> bool {
    st.last_writer matches Some(w) && reach_p(nodes, deps, t, w as int, x)
}

spec fn covers_r(st: SlotState, nodes: Seq<TransactionNode>, deps: Seq<u64>, t: int, x: int) -> bool {
    st.readers@.contains(x as u64) || covers_w(st, nodes, deps, t, x)
}

/// The bookkeeping accounts for every earlier access: each writer of a slot
/// is reached from its last writer, each reader is a recorded reader or is
/// reached from the last writer.
spec fn covers(slots: Seq<SlotState>, nodes: Seq<TransactionNode>, deps: Seq<u64>, t: int) -> bool {
    forall|x: int, s: Slot|
        #![trigger nodes[x - 1].footprint.writes@.contains(s)]
        #![trigger nodes[x - 1].footprint.reads@.contains(s)]
        1 <= x <= nodes.len() ==> {
            &&& (nodes[x - 1].footprint.writes@.contains(s) ==> exists|j: int|
                0 <= j < slots.len() && #[trigger] slots[j].slot == s && covers_w(slots[j], nodes, deps, t, x))
            &&& (nodes[x - 1].footprint.reads@.contains(s) ==> exists|j: int|
                0 <= j < slots.len() && #[trigger] slots[j].slot == s && covers_r(slots[j], nodes, deps, t, x))
        }
}

spec fn slots_unique(slots: Seq<SlotState>) -> bool {
    forall|j: int, l: int| 0 <= j < l < slots.len() ==> (#[trigger] slots[j]).slot != (#[trigger] slots[l]).slot
}

proof fn lemma_reach_refl(nodes: Seq<TransactionNode>, b: int)
    requires
        1 <= b <= nodes.len(),
        nodes.len() < u64::MAX,
    ensures
        reaches(nodes, b, b),
{
    let p = seq![b as u64];
    assert(is_path(nodes, p));
}

proof fn lemma_reach_step(nodes: Seq<TransactionNode>, c: int, b: int, a: int)
    requires
        has_edge(nodes, c, b),
        reaches(nodes, b, a),
        0 <= c < u64::MAX,
    ensures
        reaches(nodes, c, a),
{
    let p = choose|p: Seq<u64>| #[trigger] is_path(nodes, p) && p[0] as int == b && p.last() as int == a;
    let q = seq![c as u64] + p;
    assert forall|k: int| 0 <= k < q.len() - 1 implies has_edge(nodes, #[trigger] q[k] as int, q[k + 1] as int) by {
        if k > 0 {
            assert(q[k] == p[k - 1] && q[k + 1] == p[k]);
            assert(has_edge(nodes, p[k - 1] as int, p[k] as int));
        }
    }
    assert(is_path(nodes, q));
    assert(q.last() == p.last());
}

proof fn lemma_reach_push(nodes: Seq<TransactionNode>, node: TransactionNode, b: int, a: int)
    requires
        reaches(nodes, b, a),
    ensures
        reaches(nodes.push(node), b, a),
{
    let nn = nodes.push(node);
    let p = choose|p: Seq<u64>| #[trigger] is_path(nodes, p) && p[0] as int == b && p.last() as int == a;
    assert forall|k: int| 0 <= k < p.len() - 1 implies has_edge(nn, #[trigger] p[k] as int, p[k + 1] as int) by {
        assert(has_edge(nodes, p[k] as int, p[k + 1] as int));
        assert(nn[p[k] - 1] == nodes[p[k] - 1]);
    }
    assert(is_path(nn, p));
}

proof fn lemma_reach_p_grow(nodes: Seq<TransactionNode>, deps: Seq<u64>, d: u64, t: int, w: int, x: int)
    requires
        reach_p(nodes, deps, t, w, x),
    ensures
        reach_p(nodes, if deps.contains(d) { deps } else { deps.push(d) }, t, w, x),
{
    if w == t && !deps.contains(d) {
        let k = choose|k: int| 0 <= k < deps.len() && reaches(nodes, #[trigger] deps[k] as int, x);
        assert(deps.push(d)[k] == deps[k]);
    }
}

proof fn lemma_covers_grow(slots: Seq<SlotState>, nodes: Seq<TransactionNode>, deps: Seq<u64>, d: u64, t: int)
    requires
        covers(slots, nodes, deps, t),
    ensures
        covers(slots, nodes, if deps.contains(d) { deps } else { deps.push(d) }, t),
{
    let d2 = if deps.contains(d) { deps } else { deps.push(d) };
    assert forall|x: int, s: Slot| 1 <= x <= nodes.len() implies {
        &&& (#[trigger] nodes[x - 1].footprint.writes@.contains(s) ==> exists|j: int|
            0 <= j < slots.len() && #[trigger] slots[j].slot == s && covers_w(slots[j], nodes, d2, t, x))
        &&& (nodes[x - 1].footprint.reads@.contains(s) ==> exists|j: int|
            0 <= j < slots.len() && #[trigger] slots[j].slot == s && covers_r(slots[j], nodes, d2, t, x))
    } by {
        if nodes[x - 1].footprint.writes@.contains(s) {
            let j = choose|j: int| 0 <= j < slots.len() && #[trigger] slots[j].slot == s && covers_w(slots[j], nodes, deps, t, x);
            let w = slots[j].last_writer.unwrap();
            lemma_reach_p_grow(nodes, deps, d, t, w as int, x);
            assert(covers_w(slots[j], nodes, d2, t, x));
        }
        if nodes[x - 1].footprint.reads@.contains(s) {
            let j = choose|j: int| 0 <= j < slots.len() && #[trigger] slots[j].slot == s && covers_r(slots[j], nodes, deps, t, x);
            if !slots[j].readers@.contains(x as u64) {
                let w = slots[j].last_writer.unwrap();
                lemma_reach_p_grow(nodes, deps, d, t, w as int, x);
            }
            assert(covers_r(slots[j], nodes, d2, t, x));
        }
    }
}

/// Replacing an entry by one for the same slot that covers at least as much.
proof fn lemma_covers_replace(slots: Seq<SlotState>, j: int, st: SlotState, nodes: Seq<TransactionNode>, deps: Seq<u64>, t: int)
    requires
        covers(slots, nodes, deps, t),
        0 <= j < slots.len(),
        st.slot == slots[j].slot,
        forall|x: int| 1 <= x <= nodes.len() && nodes[x - 1].footprint.writes@.contains(st.slot) ==> covers_w(st, nodes, deps, t, x),
        forall|x: int| 1 <= x <= nodes.len() && nodes[x - 1].footprint.reads@.contains(st.slot) ==> covers_r(st, nodes, deps, t, x),
    ensures
        covers(slots.update(j, st), nodes, deps, t),
{
    let ns = slots.update(j, st);
    assert forall|x: int, s: Slot| 1 <= x <= nodes.len() implies {
        &&& (#[trigger] nodes[x - 1].footprint.writes@.contains(s) ==> exists|i: int|
            0 <= i < ns.len() && #[trigger] ns[i].slot == s && covers_w(ns[i], nodes, deps, t, x))
        &&& (nodes[x - 1].footprint.reads@.contains(s) ==> exists|i: int|
            0 <= i < ns.len() && #[trigger] ns[i].slot == s && covers_r(ns[i], nodes, deps, t, x))
    } by {
        if s == st.slot {
            if nodes[x - 1].footprint.writes@.contains(s) {
                assert(ns[j].slot == s && covers_w(ns[j], nodes, deps, t, x));
            }
            if nodes[x - 1].footprint.reads@.contains(s) {
                assert(ns[j].slot == s && covers_r(ns[j], nodes, deps, t, x));
            }
        } else {
            if nodes[x - 1].footprint.writes@.contains(s) {
                let i = choose|i: int| 0 <= i < slots.len() && #[trigger] slots[i].slot == s && covers_w(slots[i], nodes, deps, t, x);
                assert(i != j);
                assert(ns[i] == slots[i]);
            }
            if nodes[x - 1].footprint.reads@.contains(s) {
                let i = choose|i: int| 0 <= i < slots.len() && #[trigger] slots[i].slot == s && covers_r(slots[i], nodes, deps, t, x);
                assert(i != j);
                assert(ns[i] == slots[i]);
            }
        }
    }
}

proof fn lemma_covers_push(slots: Seq<SlotState>, st: SlotState, nodes: Seq<TransactionNode>, deps: Seq<u64>, t: int)
    requires
        covers(slots, nodes, deps, t),
    ensures
        covers(slots.push(st), nodes, deps, t),
{
    let ns = slots.push(st);
    assert forall|x: int, s: Slot| 1 <= x <= nodes.len() implies {
        &&& (#[trigger] nodes[x - 1].footprint.writes@.contains(s) ==> exists|i: int|
            0 <= i < ns.len() && #[trigger] ns[i].slot == s && covers_w(ns[i], nodes, deps, t, x))
        &&& (nodes[x - 1].footprint.reads@.contains(s) ==> exists|i: int|
            0 <= i < ns.len() && #[trigger] ns[i].slot == s && covers_r(ns[i], nodes, deps, t, x))
    } by {
        if nodes[x - 1].footprint.writes@.contains(s) {
            let i = choose|i: int| 0 <= i < slots.len() && #[trigger] slots[i].slot == s && covers_w(slots[i], nodes, deps, t, x);
            assert(ns[i] == slots[i]);
        }
        if nodes[x - 1].footprint.reads@.contains(s) {
            let i = choose|i: int| 0 <= i < slots.len() && #[trigger] slots[i].slot == s && covers_r(slots[i], nodes, deps, t, x);
            assert(ns[i] == slots[i]);
        }
    }
}

spec fn pcov(nodes: Seq<TransactionNode>, deps: Seq<u64>, t: int, x: int) -> bool {
    reach_p(nodes, deps, t, t, x)
}

proof fn lemma_pcov_grow_all(nodes: Seq<TransactionNode>, deps: Seq<u64>, d: u64, t: int)
    ensures
        forall|x: int| #[trigger] pcov(nodes, deps, t, x) ==> pcov(nodes, if deps.contains(d) { deps } else { deps.push(d) }, t, x),
{
    assert forall|x: int| #[trigger] pcov(nodes, deps, t, x) implies pcov(nodes, if deps.contains(d) { deps } else { deps.push(d) }, t, x) by {
        lemma_reach_p_grow(nodes, deps, d, t, t, x);
    }
}

/// Once `w` is among the collected dependencies, whatever `w` reaches is
/// reached from the pending transaction.
proof fn lemma_pcov_member(nodes: Seq<TransactionNode>, deps: Seq<u64>, t: int, w: u64, x: int)
    requires
        deps.contains(w),
        reaches(nodes, w as int, x),
    ensures
        pcov(nodes, deps, t, x),
{
    let k = choose|k: int| 0 <= k < deps.len() && deps[k] == w;
    assert(reaches(nodes, deps[k] as int, x));
}

/// Appending the pending transaction with its collected dependencies keeps
/// the bookkeeping complete and every hazard honoured.
proof fn lemma_commit_complete(slots: Seq<SlotState>, nodes: Seq<TransactionNode>, node: TransactionNode)
    requires
        net_wf(nodes.push(node)),
        nodes.len() + 1 < u64::MAX,
        hazard_complete(nodes),
        covers(slots, nodes, node.dependencies@, nodes.len() + 1 as int),
        forall|s: Slot| #[trigger] node.footprint.writes@.contains(s) ==> exists|j: int|
            0 <= j < slots.len() && #[trigger] slots[j].slot == s && slots[j].last_writer == Some((nodes.len() + 1) as u64),
        forall|s: Slot| #[trigger] node.footprint.reads@.contains(s) ==> exists|j: int|
            0 <= j < slots.len() && #[trigger] slots[j].slot == s && (slots[j].last_writer == Some((nodes.len() + 1) as u64)
                || slots[j].readers@.contains((nodes.len() + 1) as u64)),
        forall|x: int| 1 <= x <= nodes.len() && #[trigger] hazard(nodes[x - 1].footprint, node.footprint) ==> pcov(nodes, node.dependencies@, nodes.len() + 1 as int, x),
    ensures
        hazard_complete(nodes.push(node)),
        covers(slots, nodes.push(node), Seq::empty(), nodes.len() + 2 as int),
{
    let nn = nodes.push(node);
    let t = nodes.len() + 1 as int;
    let deps = node.dependencies@;
    assert(nn[t - 1] == node);
    assert forall|x: int| 1 <= x <= nodes.len() && #[trigger] pcov(nodes, deps, t, x) implies reaches(nn, t, x) by {
        let k = choose|k: int| 0 <= k < deps.len() && reaches(nodes, #[trigger] deps[k] as int, x);
        lemma_reach_push(nodes, node, deps[k] as int, x);
        assert(has_edge(nn, t, deps[k] as int));
        lemma_reach_step(nn, t, deps[k] as int, x);
    }
    assert forall|w: int, x: int| 1 <= x <= nodes.len() && #[trigger] reach_p(nodes, deps, t, w, x) implies reach_p(nn, Seq::empty(), t + 1, w, x) by {
        if w == t {
            assert(pcov(nodes, deps, t, x));
        } else {
            lemma_reach_push(nodes, node, w, x);
        }
    }
    lemma_reach_refl(nn, t);
    assert forall|x: int, s: Slot| 1 <= x <= nn.len() implies {
        &&& (#[trigger] nn[x - 1].footprint.writes@.contains(s) ==> exists|j: int|
            0 <= j < slots.len() && #[trigger] slots[j].slot == s && covers_w(slots[j], nn, Seq::empty(), t + 1, x))
        &&& (nn[x - 1].footprint.reads@.contains(s) ==> exists|j: int|
            0 <= j < slots.len() && #[trigger] slots[j].slot == s && covers_r(slots[j], nn, Seq::empty(), t + 1, x))
    } by {
        if x == t {
            if node.footprint.writes@.contains(s) {
                let j = choose|j: int| 0 <= j < slots.len() && #[trigger] slots[j].slot == s && slots[j].last_writer == Some(t as u64);
                assert(covers_w(slots[j], nn, Seq::empty(), t + 1, x));
            }
            if node.footprint.reads@.contains(s) {
                let j = choose|j: int| 0 <= j < slots.len() && #[trigger] slots[j].slot == s && (slots[j].last_writer == Some(t as u64)
                    || slots[j].readers@.contains(t as u64));
                assert(covers_r(slots[j], nn, Seq::empty(), t + 1, x));
            }
        } else {
            assert(nn[x - 1] == nodes[x - 1]);
            if nodes[x - 1].footprint.writes@.contains(s) {
                let j = choose|j: int| 0 <= j < slots.len() && #[trigger] slots[j].slot == s && covers_w(slots[j], nodes, deps, t, x);
                let w = slots[j].last_writer.unwrap();
                assert(reach_p(nodes, deps, t, w as int, x));
                assert(covers_w(slots[j], nn, Seq::empty(), t + 1, x));
            }
            if nodes[x - 1].footprint.reads@.contains(s) {
                let j = choose|j: int| 0 <= j < slots.len() && #[trigger] slots[j].slot == s && covers_r(slots[j], nodes, deps, t, x);
                if !slots[j].readers@.contains(x as u64) {
                    let w = slots[j].last_writer.unwrap();
                    assert(reach_p(nodes, deps, t, w as int, x));
                }
                assert(covers_r(slots[j], nn, Seq::empty(), t + 1, x));
            }
        }
    }
    assert forall|a: int, b: int|
        1 <= a < b <= nn.len() && #[trigger] hazard(nn[a - 1].footprint, nn[b - 1].footprint) implies reaches(nn, b, a) by {
        assert(nn[a - 1] == nodes[a - 1]);
        if b < t {
            assert(nn[b - 1] == nodes[b - 1]);
            lemma_reach_push(nodes, node, b, a);
        } else {
            assert(pcov(nodes, deps, t, a));
        }
    }
}

/// Some entry for slot `s` lists `id` as a reader.
spec fn read_recorded(slots: Seq<SlotState>, s: Slot, id: u64) -> bool {
    exists|j: int| 0 <= j < slots.len() && #[trigger] slots[j].slot == s && slots[j].readers@.contains(id)
}

/// Some entry for slot `s` lists `id` as a reader or as the last writer.
spec fn read_or_written(slots: Seq<SlotState>, s: Slot, id: u64) -> bool {
    exists|j: int| 0 <= j < slots.len() && #[trigger] slots[j].slot == s && (slots[j].readers@.contains(id) || slots[j].last_writer == Some(id))
}

/// Some entry for slot `s` has `id` as its last writer.
spec fn write_recorded(slots: Seq<SlotState>, s: Slot, id: u64) -> bool {
    exists|j: int| 0 <= j < slots.len() && #[trigger] slots[j].slot == s && slots[j].last_writer == Some(id)
}

proof fn lemma_unique_index(slots: Seq<SlotState>, i: int, j: int)
    requires
        slots_unique(slots),
        0 <= i < slots.len(),
        0 <= j < slots.len(),
        slots[i].slot == slots[j].slot,
    ensures
        i == j,
{
    if i < j {
        assert(slots[i].slot != slots[j].slot);
    } else if j < i {
        assert(slots[j].slot != slots[i].slot);
    }
}

/// Once the last writer of a slot is a collected dependency, every earlier
/// writer of the slot is reached from the pending transaction.
proof fn lemma_writers_reached(slots: Seq<SlotState>, j: int, nodes: Seq<TransactionNode>, deps: Seq<u64>, t: int)
    requires
        slots_unique(slots),
        covers(slots, nodes, deps, t),
        0 <= j < slots.len(),
        slots[j].last_writer matches Some(w) && w != t && deps.contains(w),
    ensures
        forall|x: int| 1 <= x <= nodes.len() && #[trigger] nodes[x - 1].footprint.writes@.contains(slots[j].slot) ==> pcov(nodes, deps, t, x),
{
    let s = slots[j].slot;
    assert forall|x: int| 1 <= x <= nodes.len() && #[trigger] nodes[x - 1].footprint.writes@.contains(s) implies pcov(nodes, deps, t, x) by {
        let i = choose|i: int| 0 <= i < slots.len() && #[trigger] slots[i].slot == s && covers_w(slots[i], nodes, deps, t, x);
        lemma_unique_index(slots, i, j);
        lemma_pcov_member(nodes, deps, t, slots[j].last_writer.unwrap(), x);
    }
}

/// A slot with no entry has no earlier writer.
proof fn lemma_no_entry_no_writer(slots: Seq<SlotState>, s: Slot, nodes: Seq<TransactionNode>, deps: Seq<u64>, t: int)
    requires
        covers(slots, nodes, deps, t),
        forall|j: int| 0 <= j < slots.len() ==> (#[trigger] slots[j]).slot != s,
    ensures
        forall|x: int| 1 <= x <= nodes.len() ==> !(#[trigger] nodes[x - 1].footprint.writes@.contains(s)) && !nodes[x - 1].footprint.reads@.contains(s),
{
    assert forall|x: int| 1 <= x <= nodes.len() implies !(#[trigger] nodes[x - 1].footprint.writes@.contains(s)) && !nodes[x - 1].footprint.reads@.contains(s) by {
        if nodes[x - 1].footprint.writes@.contains(s) {
            let i = choose|i: int| 0 <= i < slots.len() && #[trigger] slots[i].slot == s && covers_w(slots[i], nodes, deps, t, x);
        }
        if nodes[x - 1].footprint.reads@.contains(s) {
            let i = choose|i: int| 0 <= i < slots.len() && #[trigger] slots[i].slot == s && covers_r(slots[i], nodes, deps, t, x);
        }
    }
}

/// Recording one more reader keeps the bookkeeping complete and its slots
/// unique, and keeps every recorded pending read.
proof fn lemma_add_reader(slots: Seq<SlotState>, j: int, st: SlotState, id: u64, nodes: Seq<TransactionNode>, deps: Seq<u64>, t: int, rs: Seq<Slot>, k: int)
    requires
        slots_unique(slots),
        covers(slots, nodes, deps, t),
        0 <= j < slots.len(),
        0 <= k < rs.len(),
        rs[k] == slots[j].slot,
        st.slot == slots[j].slot,
        st.last_writer == slots[j].last_writer,
        st.readers@ == slots[j].readers@.push(id),
        forall|q: int| 0 <= q < k ==> read_recorded(slots, #[trigger] rs[q], id),
    ensures
        slots_unique(slots.update(j, st)),
        covers(slots.update(j, st), nodes, deps, t),
        forall|q: int| 0 <= q < k + 1 ==> read_recorded(slots.update(j, st), #[trigger] rs[q], id),
{
    let ns = slots.update(j, st);
    let old_st = slots[j];
    assert(st.readers@[st.readers@.len() - 1] == id);
    assert forall|x: int| 1 <= x <= nodes.len() && nodes[x - 1].footprint.writes@.contains(st.slot) implies covers_w(st, nodes, deps, t, x) by {
        let i = choose|i: int| 0 <= i < slots.len() && #[trigger] slots[i].slot == st.slot && covers_w(slots[i], nodes, deps, t, x);
        lemma_unique_index(slots, i, j);
    }
    assert forall|x: int| 1 <= x <= nodes.len() && nodes[x - 1].footprint.reads@.contains(st.slot) implies covers_r(st, nodes, deps, t, x) by {
        let i = choose|i: int| 0 <= i < slots.len() && #[trigger] slots[i].slot == st.slot && covers_r(slots[i], nodes, deps, t, x);
        lemma_unique_index(slots, i, j);
        if old_st.readers@.contains(x as u64) {
            let l = choose|l: int| 0 <= l < old_st.readers@.len() && old_st.readers@[l] == x as u64;
            assert(st.readers@[l] == x as u64);
        }
    }
    lemma_covers_replace(slots, j, st, nodes, deps, t);
    assert forall|q: int| #![trigger rs[q]] 0 <= q < k + 1 implies exists|i: int|
        0 <= i < slots.len() && #[trigger] ns[i].slot == rs[q] && ns[i].readers@.contains(id) by {
        if q == k {
            assert(ns[j].slot == rs[q]);
        } else {
            let i = choose|i: int| 0 <= i < slots.len() && #[trigger] slots[i].slot == rs[q] && slots[i].readers@.contains(id);
            if i == j {
                assert(ns[j].slot == rs[q]);
            } else {
                assert(ns[i] == slots[i]);
            }
        }
    }
    assert forall|j2: int, l: int| 0 <= j2 < l < ns.len() implies (#[trigger] ns[j2]).slot != (#[trigger] ns[l]).slot by {
        assert(slots[j2].slot != slots[l].slot);
    }
}

/// Builds the dependency graph from transactions given in arrival order.
pub struct NetBuilder {
    registry: Registry,
    nodes: Vec<TransactionNode>,
    slots: Vec<SlotState>,
    next_id: u64,
}

fn add_dep(deps: &mut Vec<u64>, d: u64)
    ensures
        final(deps)@ == if old(deps)@.contains(d) {
            old(deps)@
        } else {
            old(deps)@.push(d)
        },
{
    let mut i: usize = 0;
    while i < deps.len()
        invariant
            i <= deps@.len(),
            forall|k: int| 0 <= k < i ==> deps@[k] != d,
        decreases deps@.len() - i,
    {
        if deps[i] == d {
            return;
        }
        i = i + 1;
    }
    deps.push(d);
}

fn find_slot(slots: &Vec<SlotState>, s: Slot) -> (r: Option<usize>)
    ensures
        r matches Some(j) ==> j < slots@.len() && slots@[j as int].slot == s,
        r is None ==> forall|j: int| 0 <= j < slots@.len() ==> (#[trigger] slots@[j]).slot != s,
{
    let mut j: usize = 0;
    while j < slots.len()
        invariant
            j <= slots@.len(),
            forall|i: int| 0 <= i < j ==> (#[trigger] slots@[i]).slot != s,
        decreases slots@.len() - j,
    {
        if slots[j].slot == s {
            return Some(j);
        }
        j = j + 1;
    }
    None
}

proof fn lemma_push_dep(deps: Seq<u64>, nodes: Seq<TransactionNode>, pending: Footprint, d: u64)
    requires
        deps_ok(deps, nodes, pending),
        1 <= d <= nodes.len(),
        hazard(nodes[d - 1].footprint, pending),
    ensures
        deps_ok(
            if deps.contains(d) {
                deps
            } else {
                deps.push(d)
            },
            nodes,
            pending,
        ),
{
    if !deps.contains(d) {
        let e = deps.push(d);
        assert forall|k: int, l: int| 0 <= k < e.len() && 0 <= l < e.len() && k != l implies e[k]
            != e[l] by {
            if k < deps.len() && l < deps.len() {
            } else if k < deps.len() {
                assert(deps.contains(deps[k]));
            } else {
                assert(deps.contains(deps[l]));
            }
        }
        assert forall|k: int| 0 <= k < e.len() implies {
            let x = #[trigger] e[k];
            1 <= x <= nodes.len() && hazard(nodes[x - 1].footprint, pending)
        } by {
            if k < deps.len() {
                assert(e[k] == deps[k]);
            }
        }
    }
}

impl NetBuilder {
    /// Records that the pending transaction `id` writes its `k`-th write
    /// slot: it depends on the slot's last writer and on the readers since,
    /// then becomes the last writer with no readers.
    #[verifier::rlimit(100)]
    #[verifier::spinoff_prover]
    fn write_step(&mut self, deps: &mut Vec<u64>, f: &Footprint, k: usize, id: u64, Ghost(nodes): Ghost<Seq<TransactionNode>>, Ghost(rs): Ghost<Seq<Slot>>)
        requires
            id as int == nodes.len() + 1,
            id < u64::MAX,
            net_wf(nodes),
            k < f.writes@.len(),
            rs == f.reads@,
            table_ok(old(self).slots@, nodes, *f, id as int, id as int),
            deps_ok(old(deps)@, nodes, *f),
            slots_unique(old(self).slots@),
            covers(old(self).slots@, nodes, old(deps)@, id as int),
            forall|q: int| 0 <= q < f.reads@.len() ==> read_or_written(old(self).slots@, #[trigger] rs[q], id),
            forall|q: int| 0 <= q < k ==> write_recorded(old(self).slots@, #[trigger] f.writes@[q], id),
            forall|q: int, x: int| 0 <= q < f.reads@.len() && 1 <= x <= nodes.len() && #[trigger] nodes[x - 1].footprint.writes@.contains(rs[q]) ==> pcov(nodes, old(deps)@, id as int, x),
            forall|q: int, x: int| 0 <= q < k && 1 <= x <= nodes.len() && #[trigger] nodes[x - 1].footprint.writes@.contains(f.writes@[q]) ==> pcov(nodes, old(deps)@, id as int, x),
            forall|q: int, x: int| 0 <= q < k && 1 <= x <= nodes.len() && #[trigger] nodes[x - 1].footprint.reads@.contains(f.writes@[q]) ==> pcov(nodes, old(deps)@, id as int, x),
        ensures
            final(self).nodes == old(self).nodes,
            final(self).registry == old(self).registry,
            final(self).next_id == old(self).next_id,
            table_ok(final(self).slots@, nodes, *f, id as int, id as int),
            deps_ok(final(deps)@, nodes, *f),
            slots_unique(final(self).slots@),
            covers(final(self).slots@, nodes, final(deps)@, id as int),
            forall|q: int| 0 <= q < f.reads@.len() ==> read_or_written(final(self).slots@, #[trigger] rs[q], id),
            forall|q: int| 0 <= q < k + 1 ==> write_recorded(final(self).slots@, #[trigger] f.writes@[q], id),
            forall|q: int, x: int| 0 <= q < f.reads@.len() && 1 <= x <= nodes.len() && #[trigger] nodes[x - 1].footprint.writes@.contains(rs[q]) ==> pcov(nodes, final(deps)@, id as int, x),
            forall|q: int, x: int| 0 <= q < k + 1 && 1 <= x <= nodes.len() && #[trigger] nodes[x - 1].footprint.writes@.contains(f.writes@[q]) ==> pcov(nodes, final(deps)@, id as int, x),
            forall|q: int, x: int| 0 <= q < k + 1 && 1 <= x <= nodes.len() && #[trigger] nodes[x - 1].footprint.reads@.contains(f.writes@[q]) ==> pcov(nodes, final(deps)@, id as int, x),
    {
        let s = f.writes[k];
        let ghost fv = *f;
        let ghost t = id as int;
        assert(f.writes@.contains(s));
        let ghost slots0 = self.slots@;
        match find_slot(&self.slots, s) {
            Some(j) => {
                let mut st = SlotState { slot: s, last_writer: None, readers: Vec::new() };
                self.slots.set_and_swap(j, &mut st);
                assert(st == slots0[j as int]);
                assert(entry_ok(st, nodes, fv, id as int, id as int));
                let ghost deps0 = deps@;
                if let Some(w) = st.last_writer {
                    if w != id {
                        proof {
                            assert(fp_at(nodes, fv, w as int) == nodes[w - 1].footprint);
                            assert(nodes[w - 1].footprint.writes@.contains(s) && f.writes@.contains(s));
                            lemma_push_dep(deps@, nodes, fv, w);
                            lemma_covers_grow(slots0, nodes, deps@, w, t);
                            lemma_pcov_grow_all(nodes, deps@, w, t);
                        }
                        add_dep(deps, w);
                    }
                }
                proof {
                    // what the last writer reaches is now reached
                    assert forall|x: int| 1 <= x <= nodes.len() && #[trigger] covers_w(st, nodes, deps@, t, x) implies pcov(nodes, deps@, t, x) by {
                        let w = st.last_writer.unwrap();
                        if w != id {
                            assert(deps@.contains(w)) by {
                                if !deps0.contains(w) {
                                    assert(deps@[deps@.len() - 1] == w);
                                }
                            }
                            lemma_pcov_member(nodes, deps@, t, w, x);
                        }
                    }
                }
                let mut q: usize = 0;
                while q < st.readers.len()
                    invariant
                        q <= st.readers@.len(),
                        st.slot == s,
                        st == slots0[j as int],
                        j < slots0.len(),
                        f.writes@.contains(s),
                        fv == *f,
                        rs == f.reads@,
                        id as int == nodes.len() + 1,
                        t == id as int,
                        id < u64::MAX,
                        entry_ok(st, nodes, fv, id as int, id as int),
                        deps_ok(deps@, nodes, fv),
                        covers(slots0, nodes, deps@, t),
                        forall|l: int| 0 <= l < q && st.readers@[l] != id ==> deps@.contains(#[trigger] st.readers@[l]),
                        forall|x: int| 1 <= x <= nodes.len() && #[trigger] covers_w(st, nodes, deps@, t, x) ==> pcov(nodes, deps@, t, x),
                        forall|r: int, x: int| 0 <= r < f.reads@.len() && 1 <= x <= nodes.len() && #[trigger] nodes[x - 1].footprint.writes@.contains(rs[r]) ==> pcov(nodes, deps@, t, x),
                        forall|r: int, x: int| 0 <= r < k && 1 <= x <= nodes.len() && #[trigger] nodes[x - 1].footprint.writes@.contains(f.writes@[r]) ==> pcov(nodes, deps@, t, x),
                        forall|r: int, x: int| 0 <= r < k && 1 <= x <= nodes.len() && #[trigger] nodes[x - 1].footprint.reads@.contains(f.writes@[r]) ==> pcov(nodes, deps@, t, x),
                    decreases st.readers@.len() - q,
                {
                    let r = st.readers[q];
                    if r != id {
                        proof {
                            assert(fp_at(nodes, fv, r as int) == nodes[r - 1].footprint);
                            assert(nodes[r - 1].footprint.reads@.contains(s) && fv.writes@.contains(s));
                            lemma_push_dep(deps@, nodes, fv, r);
                            lemma_covers_grow(slots0, nodes, deps@, r, t);
                            lemma_pcov_grow_all(nodes, deps@, r, t);
                        }
                        let ghost dq = deps@;
                        add_dep(deps, r);
                        proof {
                            assert forall|x: int| 1 <= x <= nodes.len() && #[trigger] covers_w(st, nodes, deps@, t, x) implies pcov(nodes, deps@, t, x) by {
                                let w = st.last_writer.unwrap();
                                if w != id {
                                    assert(covers_w(st, nodes, dq, t, x));
                                    assert(pcov(nodes, dq, t, x));
                                }
                            }
                            assert forall|l: int| 0 <= l < q + 1 && st.readers@[l] != id implies deps@.contains(#[trigger] st.readers@[l]) by {
                                if l < q {
                                    let i = choose|i: int| 0 <= i < dq.len() && dq[i] == st.readers@[l];
                                    assert(deps@[i] == dq[i]);
                                } else if !dq.contains(r) {
                                    assert(deps@[deps@.len() - 1] == r);
                                }
                            }
                        }
                    }
                    q = q + 1;
                }
                proof {
                    assert forall|x: int| 1 <= x <= nodes.len() && (nodes[x - 1].footprint.writes@.contains(s) || nodes[x - 1].footprint.reads@.contains(s)) implies pcov(nodes, deps@, t, x) by {
                        let wr = nodes[x - 1].footprint.writes@.contains(s);
                        if wr {
                            let i = choose|i: int| 0 <= i < slots0.len() && #[trigger] slots0[i].slot == s && covers_w(slots0[i], nodes, deps@, t, x);
                            if i != j as int {
                                assert(slots0[i].slot != slots0[j as int].slot);
                            }
                        } else {
                            let i = choose|i: int| 0 <= i < slots0.len() && #[trigger] slots0[i].slot == s && covers_r(slots0[i], nodes, deps@, t, x);
                            if i != j as int {
                                assert(slots0[i].slot != slots0[j as int].slot);
                            }
                            if st.readers@.contains(x as u64) {
                                let l = choose|l: int| 0 <= l < st.readers@.len() && st.readers@[l] == x as u64;
                                assert(deps@.contains(st.readers@[l]));
                                lemma_reach_refl(nodes, x);
                                lemma_pcov_member(nodes, deps@, t, x as u64, x);
                            }
                        }
                    }
                }
                let st2 = SlotState { slot: s, last_writer: Some(id), readers: Vec::new() };
                assert(entry_ok(st2, nodes, fv, id as int, id as int));
                proof {
                    lemma_table_update(slots0, j as int, st2, nodes, fv, id as int, id as int);
                    assert forall|x: int| 1 <= x <= nodes.len() && nodes[x - 1].footprint.writes@.contains(st2.slot) implies covers_w(st2, nodes, deps@, t, x) by {}
                    assert forall|x: int| 1 <= x <= nodes.len() && nodes[x - 1].footprint.reads@.contains(st2.slot) implies covers_r(st2, nodes, deps@, t, x) by {}
                    lemma_covers_replace(slots0, j as int, st2, nodes, deps@, t);
                }
                self.slots.set(j, st2);
                assert(self.slots@ =~= slots0.update(j as int, st2));
                proof {
                    let ns = self.slots@;
                    assert(ns == slots0.update(j as int, st2));
                    assert forall|r: int| 0 <= r < f.reads@.len() implies read_or_written(ns, #[trigger] rs[r], id) by {
                        assert(read_or_written(slots0, rs[r], id));
                        let i = choose|i: int| 0 <= i < slots0.len() && #[trigger] slots0[i].slot == rs[r] && (slots0[i].readers@.contains(id) || slots0[i].last_writer == Some(id));
                        if i == j {
                            assert(ns[j as int].slot == rs[r] && ns[j as int].last_writer == Some(id));
                        } else {
                            assert(ns[i] == slots0[i]);
                        }
                    }
                    assert forall|r: int| 0 <= r < k + 1 implies write_recorded(ns, #[trigger] f.writes@[r], id) by {
                        if r == k {
                            assert(ns[j as int].slot == f.writes@[r] && ns[j as int].last_writer == Some(id));
                        } else {
                            assert(write_recorded(slots0, f.writes@[r], id));
                            let i = choose|i: int| 0 <= i < slots0.len() && #[trigger] slots0[i].slot == f.writes@[r] && slots0[i].last_writer == Some(id);
                            if i == j {
                                assert(ns[j as int].slot == f.writes@[r] && ns[j as int].last_writer == Some(id));
                            } else {
                                assert(ns[i] == slots0[i]);
                            }
                        }
                    }
                    assert forall|j2: int, l: int| 0 <= j2 < l < ns.len() implies (#[trigger] ns[j2]).slot != (#[trigger] ns[l]).slot by {
                        assert(slots0[j2].slot != slots0[l].slot);
                    }
                }
            },
            None => {
                let st = SlotState { slot: s, last_writer: Some(id), readers: Vec::new() };
                assert(entry_ok(st, nodes, fv, id as int, id as int));
                proof {
                    lemma_table_push(self.slots@, st, nodes, fv, id as int, id as int);
                    lemma_covers_push(self.slots@, st, nodes, deps@, t);
                    assert forall|x: int| 1 <= x <= nodes.len() && (nodes[x - 1].footprint.writes@.contains(s) || nodes[x - 1].footprint.reads@.contains(s)) implies pcov(nodes, deps@, t, x) by {
                        if nodes[x - 1].footprint.writes@.contains(s) {
                            let i = choose|i: int| 0 <= i < slots0.len() && #[trigger] slots0[i].slot == s && covers_w(slots0[i], nodes, deps@, t, x);
                        } else {
                            let i = choose|i: int| 0 <= i < slots0.len() && #[trigger] slots0[i].slot == s && covers_r(slots0[i], nodes, deps@, t, x);
                        }
                    }
                }
                self.slots.push(st);
                proof {
                    let ns = self.slots@;
                    assert(ns[ns.len() - 1] == st);
                    assert forall|r: int| 0 <= r < f.reads@.len() implies read_or_written(ns, #[trigger] rs[r], id) by {
                        assert(read_or_written(slots0, rs[r], id));
                        let i = choose|i: int| 0 <= i < slots0.len() && #[trigger] slots0[i].slot == rs[r] && (slots0[i].readers@.contains(id) || slots0[i].last_writer == Some(id));
                        assert(ns[i] == slots0[i]);
                    }
                    assert forall|r: int| 0 <= r < k + 1 implies write_recorded(ns, #[trigger] f.writes@[r], id) by {
                        if r == k {
                            assert(ns[ns.len() - 1].slot == f.writes@[r] && ns[ns.len() - 1].last_writer == Some(id));
                        } else {
                            assert(write_recorded(slots0, f.writes@[r], id));
                            let i = choose|i: int| 0 <= i < slots0.len() && #[trigger] slots0[i].slot == f.writes@[r] && slots0[i].last_writer == Some(id);
                            assert(ns[i] == slots0[i]);
                        }
                    }
                    assert forall|j2: int, l: int| 0 <= j2 < l < ns.len() implies (#[trigger] ns[j2]).slot != (#[trigger] ns[l]).slot by {
                        if l == ns.len() - 1 {
                            assert(slots0[j2].slot != s);
                        } else {
                            assert(slots0[j2].slot != slots0[l].slot);
                        }
                    }
                }
            },
        }
    }

    /// Records that the pending transaction `id` reads its `k`-th read slot:
    /// it depends on the slot's last writer and joins the slot's readers.
    #[verifier::rlimit(100)]
        fn read_step(&mut self, deps: &mut Vec<u64>, f: &Footprint, k: usize, id: u64, Ghost(nodes): Ghost<Seq<TransactionNode>>, Ghost(rs): Ghost<Seq<Slot>>)
        requires
            id as int == nodes.len() + 1,
            id < u64::MAX,
            net_wf(nodes),
            k < f.reads@.len(),
            rs == f.reads@,
            table_ok(old(self).slots@, nodes, *f, nodes.len() as int, id as int),
            deps_ok(old(deps)@, nodes, *f),
            slots_unique(old(self).slots@),
            covers(old(self).slots@, nodes, old(deps)@, id as int),
            forall|q: int| 0 <= q < k ==> read_recorded(old(self).slots@, #[trigger] rs[q], id),
            forall|q: int, x: int| 0 <= q < k && 1 <= x <= nodes.len() && #[trigger] nodes[x - 1].footprint.writes@.contains(rs[q]) ==> pcov(nodes, old(deps)@, id as int, x),
        ensures
            final(self).nodes == old(self).nodes,
            final(self).registry == old(self).registry,
            final(self).next_id == old(self).next_id,
            table_ok(final(self).slots@, nodes, *f, nodes.len() as int, id as int),
            deps_ok(final(deps)@, nodes, *f),
            slots_unique(final(self).slots@),
            covers(final(self).slots@, nodes, final(deps)@, id as int),
            forall|q: int| 0 <= q < k + 1 ==> read_recorded(final(self).slots@, #[trigger] rs[q], id),
            forall|q: int, x: int| 0 <= q < k + 1 && 1 <= x <= nodes.len() && #[trigger] nodes[x - 1].footprint.writes@.contains(rs[q]) ==> pcov(nodes, final(deps)@, id as int, x),
    {
        let ghost t = id as int;
                let s = f.reads[k];
        let ghost fv = *f;
        let ghost slots0 = self.slots@;
        let ghost deps0 = deps@;
        match find_slot(&self.slots, s) {
            Some(j) => {
                let mut st = SlotState { slot: s, last_writer: None, readers: Vec::new() };
                self.slots.set_and_swap(j, &mut st);
                assert(st == slots0[j as int]);
                assert(entry_ok(st, nodes, fv, nodes.len() as int, id as int));
                if let Some(w) = st.last_writer {
                    proof {
                        assert(fp_at(nodes, fv, w as int) == nodes[w - 1].footprint);
                        assert(f.reads@.contains(s));
                        assert(nodes[w - 1].footprint.writes@.contains(s) && f.reads@.contains(s));
                        lemma_push_dep(deps@, nodes, fv, w);
                        lemma_covers_grow(slots0, nodes, deps@, w, t);
                        lemma_pcov_grow_all(nodes, deps@, w, t);
                    }
                    add_dep(deps, w);
                }
                proof {
                    if st.last_writer is Some {
                        let w = st.last_writer.unwrap();
                        assert(deps@.contains(w)) by {
                            if !deps0.contains(w) {
                                assert(deps@[deps@.len() - 1] == w);
                            }
                        }
                        lemma_writers_reached(slots0, j as int, nodes, deps@, t);
                    }
                }
                st.readers.push(id);
                assert(f.reads@.contains(s));
                assert(entry_ok(st, nodes, fv, nodes.len() as int, id as int));
                proof {
                    lemma_add_reader(slots0, j as int, st, id, nodes, deps@, t, rs, k as int);
                    lemma_table_update(slots0, j as int, st, nodes, fv, nodes.len() as int, id as int);
                }
                self.slots.set(j, st);
                assert(self.slots@ =~= slots0.update(j as int, st));
            },
            None => {
                let st = SlotState { slot: s, last_writer: None, readers: vec![id] };
                assert(f.reads@.contains(s));
                assert(entry_ok(st, nodes, fv, nodes.len() as int, id as int));
                proof {
                    lemma_table_push(self.slots@, st, nodes, fv, nodes.len() as int, id as int);
                    lemma_covers_push(self.slots@, st, nodes, deps@, t);
                    lemma_no_entry_no_writer(slots0, s, nodes, deps@, t);
                }
                self.slots.push(st);
                proof {
                    let ns = self.slots@;
                    assert(ns[ns.len() - 1] == st);
                    assert(st.readers@[0] == id);
                    assert forall|q: int| #![trigger rs[q]] 0 <= q < k + 1 implies exists|i: int|
                        0 <= i < ns.len() && #[trigger] ns[i].slot == rs[q] && ns[i].readers@.contains(id) by {
                        if q == k {
                            assert(ns[ns.len() - 1].slot == rs[q]);
                        } else {
                            let i = choose|i: int| 0 <= i < slots0.len() && #[trigger] slots0[i].slot == rs[q] && slots0[i].readers@.contains(id);
                            assert(ns[i] == slots0[i]);
                        }
                    }
                    assert forall|j2: int, l: int| 0 <= j2 < l < ns.len() implies (#[trigger] ns[j2]).slot != (#[trigger] ns[l]).slot by {
                        if l == ns.len() - 1 {
                            assert(slots0[j2].slot != s);
                        } else {
                            assert(slots0[j2].slot != slots0[l].slot);
                        }
                    }
                }
            },
        }
    }

    /// The nodes added so far.
    pub closed spec fn nodes(&self) -> Seq<TransactionNode> {
        self.nodes@
    }

    /// The contract models registered so far.
    pub closed spec fn models(&self) -> Map<Word, ContractModel> {
        self.registry@
    }

    pub closed spec fn wf(&self) -> bool {
        &&& net_wf(self.nodes@)
        &&& self.next_id as int == self.nodes@.len() + 1
        &&& table_ok(self.slots@, self.nodes@, arbitrary(), self.nodes@.len() as int, self.nodes@.len() as int)
        &&& slots_unique(self.slots@)
        &&& covers(self.slots@, self.nodes@, Seq::empty(), self.nodes@.len() + 1 as int)
        &&& hazard_complete(self.nodes@)
    }

    pub fn new() -> (r: NetBuilder)
        ensures
            r.wf(),
            r.nodes() == Seq::<TransactionNode>::empty(),
            r.models() == Map::<Word, ContractModel>::empty(),
    {
        NetBuilder { registry: Registry::new(), nodes: Vec::new(), slots: Vec::new(), next_id: 1 }
    }

    /// Installs the analysed model of the contract at an address, replacing
    /// any earlier one. Nodes already added keep their footprints.
    pub fn register_contract(&mut self, address: Word, model: ContractModel)
        requires
            old(self).wf(),
        ensures
            final(self).wf(),
            final(self).nodes() == old(self).nodes(),
            final(self).models() == old(self).models().insert(address, model),
    {
        self.registry.register(address, model);
    }

    /// Adds the next transaction in arrival order and returns its identifier.
    /// Its footprint is resolved against the registered models; it then
    /// depends on the last writer of each slot that it reads or writes, and
    /// on every reader since that write of each slot that it writes. Fails,
    /// leaving the graph as it was, on a call to an address with no model or
    /// when identifiers run out.
    #[verifier::rlimit(100)]
    pub fn new_transaction(&mut self, t: Transaction) -> (r: Result<u64, EngineError>)
        requires
            old(self).wf(),
        ensures
            final(self).wf(),
            final(self).models() == old(self).models(),
            r.is_ok() <==> (footprint_of(t, old(self).models()).is_some() && old(self).nodes().len()
                + 1 < u64::MAX),
            match r {
                Ok(id) => {
                    let node = final(self).nodes().last();
                    &&& id as int == old(self).nodes().len() + 1
                    &&& final(self).nodes() == old(self).nodes().push(node)
                    &&& node.transaction == t
                    &&& footprint_of(t, old(self).models()) == Some(
                        (node.footprint.reads@, node.footprint.writes@),
                    )
                },
                Err(e) => {
                    &&& final(self).nodes() == old(self).nodes()
                    &&& e == if old(self).nodes().len() + 1 >= u64::MAX {
                        EngineError::TooManyTransactions
                    } else {
                        EngineError::UnregisteredTarget(t.address())
                    }
                },
            },
    {
        let id = self.next_id;
        if id == u64::MAX {
            return Err(EngineError::TooManyTransactions);
        }
        let t_tx = t;
        let f = match self.registry.footprint(&t_tx) {
            Ok(f) => f,
            Err(e) => {
                return Err(e);
            },
        };
        let ghost nodes = self.nodes@;
        let ghost fg = f;
        let ghost t = id as int;
        let mut deps: Vec<u64> = Vec::new();
        let ghost rs = f.reads@;
        let mut k: usize = 0;
        while k < f.reads.len()
            invariant
                self.nodes@ == nodes,
                self.registry == old(self).registry,
                self.next_id == id,
                id as int == nodes.len() + 1,
                t == id as int,
                id < u64::MAX,
                net_wf(nodes),
                hazard_complete(nodes),
                k <= f.reads@.len(),
                rs == f.reads@,
                table_ok(self.slots@, nodes, f, nodes.len() as int, id as int),
                deps_ok(deps@, nodes, f),
                slots_unique(self.slots@),
                covers(self.slots@, nodes, deps@, t),
                forall|q: int| 0 <= q < k ==> read_recorded(self.slots@, #[trigger] rs[q], id),
                forall|q: int, x: int| 0 <= q < k && 1 <= x <= nodes.len() && #[trigger] nodes[x - 1].footprint.writes@.contains(rs[q]) ==> pcov(nodes, deps@, t, x),
            decreases f.reads@.len() - k,
        {
            self.read_step(&mut deps, &f, k, id, Ghost(nodes), Ghost(rs));
            k = k + 1;
        }
        proof {
            lemma_table_widen(self.slots@, nodes, f, nodes.len() as int, id as int, id as int);
            let sl = self.slots@;
            assert forall|q: int| 0 <= q < f.reads@.len() implies read_or_written(sl, #[trigger] rs[q], id) by {
                assert(read_recorded(sl, rs[q], id));
                let j = choose|j: int| 0 <= j < sl.len() && #[trigger] sl[j].slot == rs[q] && sl[j].readers@.contains(id);
                assert(0 <= j < sl.len() && sl[j].slot == rs[q] && (sl[j].readers@.contains(id) || sl[j].last_writer == Some(id)));
            }
        }
        let mut k: usize = 0;
        while k < f.writes.len()
            invariant
                self.nodes@ == nodes,
                self.registry == old(self).registry,
                self.next_id == id,
                id as int == nodes.len() + 1,
                t == id as int,
                id < u64::MAX,
                net_wf(nodes),
                hazard_complete(nodes),
                k <= f.writes@.len(),
                rs == f.reads@,
                table_ok(self.slots@, nodes, f, id as int, id as int),
                deps_ok(deps@, nodes, f),
                slots_unique(self.slots@),
                covers(self.slots@, nodes, deps@, t),
                forall|q: int| 0 <= q < f.reads@.len() ==> read_or_written(self.slots@, #[trigger] rs[q], id),
                forall|q: int| 0 <= q < k ==> write_recorded(self.slots@, #[trigger] f.writes@[q], id),
                forall|q: int, x: int| 0 <= q < f.reads@.len() && 1 <= x <= nodes.len() && #[trigger] nodes[x - 1].footprint.writes@.contains(rs[q]) ==> pcov(nodes, deps@, t, x),
                forall|q: int, x: int| 0 <= q < k && 1 <= x <= nodes.len() && #[trigger] nodes[x - 1].footprint.writes@.contains(f.writes@[q]) ==> pcov(nodes, deps@, t, x),
                forall|q: int, x: int| 0 <= q < k && 1 <= x <= nodes.len() && #[trigger] nodes[x - 1].footprint.reads@.contains(f.writes@[q]) ==> pcov(nodes, deps@, t, x),
            decreases f.writes@.len() - k,
        {
            self.write_step(&mut deps, &f, k, id, Ghost(nodes), Ghost(rs));
            k = k + 1;
        }
        let node = TransactionNode { id, transaction: t_tx, footprint: f, dependencies: deps };
        proof {
            lemma_table_commit(self.slots@, nodes, fg, node, arbitrary());
        }
        let ghost slots_final = self.slots@;
        self.nodes.push(node);
        self.next_id = id + 1;
        proof {
            let nn = self.nodes@;
            assert forall|i: int| 0 <= i < nn.len() implies (#[trigger] nn[i]).id == i + 1 by {
                if i < nodes.len() {
                    assert(nn[i] == nodes[i]);
                }
            }
            assert forall|i: int| 0 <= i < nn.len() implies (#[trigger] nn[i]).dependencies@.no_duplicates() by {
                if i < nodes.len() {
                    assert(nn[i] == nodes[i]);
                }
            }
            assert forall|i: int, k: int|
                0 <= i < nn.len() && 0 <= k < nn[i].dependencies@.len() implies {
                    let d = #[trigger] nn[i].dependencies@[k];
                    1 <= d <= i && hazard(nn[d - 1].footprint, nn[i].footprint)
                } by {
                let d = nn[i].dependencies@[k];
                if i < nodes.len() {
                    assert(nn[i] == nodes[i]);
                    assert(nn[d - 1] == nodes[d - 1]);
                } else {
                    assert(nn[d - 1] == nodes[d - 1]);
                }
            }
            assert(net_wf(nn));
            assert forall|x: int| 1 <= x <= nodes.len() && #[trigger] hazard(nodes[x - 1].footprint, fg) implies pcov(nodes, deps@, t, x) by {
                let s = choose|s: Slot|
                    (nodes[x - 1].footprint.writes@.contains(s) && fg.reads@.contains(s)) || (nodes[x - 1].footprint.writes@.contains(s)
                        && fg.writes@.contains(s)) || (nodes[x - 1].footprint.reads@.contains(s) && fg.writes@.contains(s));
                if fg.reads@.contains(s) && nodes[x - 1].footprint.writes@.contains(s) {
                    let r = choose|r: int| 0 <= r < fg.reads@.len() && fg.reads@[r] == s;
                    assert(nodes[x - 1].footprint.writes@.contains(fg.reads@[r]));
                } else {
                    let r = choose|r: int| 0 <= r < fg.writes@.len() && fg.writes@[r] == s;
                    if nodes[x - 1].footprint.writes@.contains(s) {
                        assert(nodes[x - 1].footprint.writes@.contains(fg.writes@[r]));
                    } else {
                        assert(nodes[x - 1].footprint.reads@.contains(fg.writes@[r]));
                    }
                }
            }
            assert forall|s: Slot| #[trigger] node.footprint.writes@.contains(s) implies exists|j: int|
                0 <= j < slots_final.len() && #[trigger] slots_final[j].slot == s && slots_final[j].last_writer == Some((nodes.len() + 1) as u64) by {
                let r = choose|r: int| 0 <= r < fg.writes@.len() && fg.writes@[r] == s;
                assert(write_recorded(slots_final, fg.writes@[r], id));
            }
            assert forall|s: Slot| #[trigger] node.footprint.reads@.contains(s) implies exists|j: int|
                0 <= j < slots_final.len() && #[trigger] slots_final[j].slot == s && (slots_final[j].last_writer == Some((nodes.len() + 1) as u64)
                    || slots_final[j].readers@.contains((nodes.len() + 1) as u64)) by {
                let r = choose|r: int| 0 <= r < fg.reads@.len() && fg.reads@[r] == s;
                assert(read_or_written(slots_final, rs[r], id));
            }
            lemma_commit_complete(slots_final, nodes, node);
        }
        Ok(id)
    }

    /// Closes the builder and returns the graph with its frontier.
    pub fn finalize(self) -> (r: Net)
        requires
            self.wf(),
        ensures
            r.nodes@ == self.nodes(),
            net_wf(r.nodes@),
            is_frontier(r.nodes@, r.frontier@),
            hazard_complete(r.nodes@),
    {
        let nodes = self.nodes;
        let frontier = frontier_of(&nodes);
        Net { nodes, frontier }
    }
}

/// The identifiers of the nodes that no node names as a dependency, ascending.
fn frontier_of(nodes: &Vec<TransactionNode>) -> (r: Vec<u64>)
    requires
        net_wf(nodes@),
        nodes@.len() < u64::MAX,
    ensures
        is_frontier(nodes@, r@),
{
    let n = nodes.len();
    let mut marked: Vec<bool> = Vec::new();
    while marked.len() < n
        invariant
            marked@.len() <= n,
            forall|a: int| 0 <= a < marked@.len() ==> !(#[trigger] marked@[a]),
        decreases n - marked@.len(),
    {
        marked.push(false);
    }
    let mut i: usize = 0;
    while i < n
        invariant
            n == nodes@.len(),
            n < u64::MAX,
            net_wf(nodes@),
            i <= n,
            marked@.len() == n,
            forall|a: int|
                1 <= a <= n ==> (#[trigger] marked@[a - 1] <==> exists|i2: int|
                    0 <= i2 < i && #[trigger] nodes@[i2].dependencies@.contains(a as u64)),
        decreases n - i,
    {
        let deps = &nodes[i].dependencies;
        let mut k: usize = 0;
        while k < deps.len()
            invariant
                n == nodes@.len(),
                n < u64::MAX,
                net_wf(nodes@),
                i < n,
                deps == nodes@[i as int].dependencies,
                k <= deps@.len(),
                marked@.len() == n,
                forall|a: int|
                    1 <= a <= n ==> (#[trigger] marked@[a - 1] <==> (exists|i2: int|
                        0 <= i2 < i && #[trigger] nodes@[i2].dependencies@.contains(a as u64))
                        || deps@.take(k as int).contains(a as u64)),
            decreases deps@.len() - k,
        {
            let d = deps[k];
            assert(nodes@[i as int].dependencies@[k as int] == d);
            assert(1 <= d <= i);
            marked.set((d - 1) as usize, true);
            assert(deps@.take(k + 1) =~= deps@.take(k as int).push(d));
            assert forall|a: int| 1 <= a <= n implies (#[trigger] marked@[a - 1] <==> (exists|i2: int|
                0 <= i2 < i && #[trigger] nodes@[i2].dependencies@.contains(a as u64))
                || deps@.take(k + 1).contains(a as u64)) by {
                if a == d {
                    assert(deps@.take(k + 1)[k as int] == d);
                }
            }
            k = k + 1;
        }
        assert(deps@.take(deps@.len() as int) =~= deps@);
        assert forall|a: int| 1 <= a <= n implies (#[trigger] marked@[a - 1] <==> exists|i2: int|
            0 <= i2 < i + 1 && #[trigger] nodes@[i2].dependencies@.contains(a as u64)) by {
            if deps@.contains(a as u64) {
                assert(nodes@[i as int].dependencies@.contains(a as u64));
            }
            if exists|i2: int| 0 <= i2 < i + 1 && #[trigger] nodes@[i2].dependencies@.contains(a as u64) {
                let i2 = choose|i2: int| 0 <= i2 < i + 1 && #[trigger] nodes@[i2].dependencies@.contains(a as u64);
                if i2 == i {
                    assert(deps@.contains(a as u64));
                }
            }
        }
        i = i + 1;
    }
    let mut r: Vec<u64> = Vec::new();
    let mut a: usize = 0;
    while a < n
        invariant
            n == nodes@.len(),
            n < u64::MAX,
            a <= n,
            marked@.len() == n,
            forall|b: int|
                1 <= b <= n ==> (#[trigger] marked@[b - 1] <==> is_dependency(nodes@, b)),
            forall|k: int| 0 <= k < r@.len() ==> 1 <= #[trigger] r@[k] <= a,
            forall|k: int, l: int| 0 <= k < l < r@.len() ==> r@[k] < r@[l],
            forall|b: int| 1 <= b <= a ==> (r@.contains(b as u64) <==> !is_dependency(nodes@, b)),
        decreases n - a,
    {
        let ghost r0 = r@;
        if !marked[a] {
            r.push((a + 1) as u64);
        }
        assert forall|b: int| 1 <= b <= a + 1 implies (r@.contains(b as u64) <==> !is_dependency(nodes@, b)) by {
            if b <= a {
                if r0.contains(b as u64) {
                    let k = choose|k: int| 0 <= k < r0.len() && r0[k] == b as u64;
                    assert(r@[k] == b as u64);
                }
                if r@.contains(b as u64) {
                    let k = choose|k: int| 0 <= k < r@.len() && r@[k] == b as u64;
                    if k < r0.len() {
                        assert(r0[k] == b as u64);
                    }
                }
            } else {
                assert(marked@[b - 1] <==> is_dependency(nodes@, b));
                if !marked@[a as int] {
                    assert(r@[r@.len() - 1] == b as u64);
                } else if r@.contains(b as u64) {
                    let k = choose|k: int| 0 <= k < r@.len() && r@[k] == b as u64;
                }
            }
        }
        a = a + 1;
    }
    r
}

/// Whether `p` walks along edges: each identifier depends on the next.
pub open spec fn is_path(nodes: Seq<TransactionNode>, p: Seq<u64>) -> bool {
    &&& p.len() >= 1
    &&& forall|k: int| 0 <= k < p.len() - 1 ==> has_edge(nodes, #[trigger] p[k] as int, p[k + 1] as int)
}

proof fn lemma_edge(nodes: Seq<TransactionNode>, b: int, a: int)
    requires
        net_wf(nodes),
        has_edge(nodes, b, a),
    ensures
        1 <= a < b,
        hazard(nodes[a - 1].footprint, nodes[b - 1].footprint),
{
    let k = choose|k: int| 0 <= k < nodes[b - 1].dependencies@.len() && #[trigger] nodes[b - 1].dependencies@[k] as int == a;
    let d = nodes[b - 1].dependencies@[k];
    assert(1 <= d <= b - 1);
}

/// A well-formed graph has no cycle: a path of one edge or more always ends
/// at a smaller identifier than the one it starts from, so it never returns.
pub proof fn lemma_acyclic(nodes: Seq<TransactionNode>, p: Seq<u64>)
    requires
        net_wf(nodes),
        is_path(nodes, p),
        p.len() >= 2,
    ensures
        p.last() < p[0],
        p.last() != p[0],
    decreases p.len(),
{
    let m = p.len() - 1;
    assert(has_edge(nodes, p[m - 1] as int, p[m] as int));
    lemma_edge(nodes, p[m - 1] as int, p[m] as int);
    if p.len() > 2 {
        let q = p.drop_last();
        assert forall|k: int| 0 <= k < q.len() - 1 implies has_edge(nodes, #[trigger] q[k] as int, q[k + 1] as int) by {
            assert(q[k] == p[k] && q[k + 1] == p[k + 1]);
            assert(has_edge(nodes, p[k] as int, p[k + 1] as int));
        }
        lemma_acyclic(nodes, q);
    }
}

/// Two transactions whose footprints share no slot in a read-after-write,
/// write-after-write or write-after-read way are not joined by an edge in
/// either direction.
pub proof fn lemma_no_spurious_edges(nodes: Seq<TransactionNode>, a: int, b: int)
    requires
        net_wf(nodes),
        1 <= a < b <= nodes.len(),
        !hazard(nodes[a - 1].footprint, nodes[b - 1].footprint),
    ensures
        !has_edge(nodes, b, a),
        !has_edge(nodes, a, b),
{
    if has_edge(nodes, b, a) {
        lemma_edge(nodes, b, a);
    }
    if has_edge(nodes, a, b) {
        lemma_edge(nodes, a, b);
    }
}

} // verus!
