use vstd::prelude::*;
use vstd::set_lib::*;
use crate::builder::{has_edge, is_dependency, is_frontier, net_wf, Net, TransactionNode};
use crate::types::{dep_less, TransactionDependency};

verus! {

/// Whether `order` names every node of the graph exactly once.
pub open spec fn visits_each_once(nodes: Seq<TransactionNode>, order: Seq<u64>) -> bool {
    &&& order.no_duplicates()
    &&& forall|k: int| 0 <= k < order.len() ==> 1 <= #[trigger] order[k] <= nodes.len()
    &&& forall|a: u64| 1 <= a <= nodes.len() ==> #[trigger] order.contains(a)
}

/// Whether node `y` is where a depth-first walk may enter next, once it has
/// visited `order[..k]`: a root of the frontier, or a dependency of a node
/// already visited.
pub open spec fn entered_before(nodes: Seq<TransactionNode>, f: Seq<u64>, order: Seq<u64>, k: int, y: u64) -> bool {
    f.contains(y) || exists|j: int| 0 <= j < k && #[trigger] has_edge(nodes, order[j] as int, y as int)
}

proof fn lemma_entered_mono(nodes: Seq<TransactionNode>, f: Seq<u64>, order: Seq<u64>, order2: Seq<u64>, k: int, k2: int, y: u64)
    requires
        entered_before(nodes, f, order, k, y),
        0 <= k <= k2,
        k <= order.len(),
        k <= order2.len(),
        forall|j: int| 0 <= j < k ==> order2[j] == order[j],
    ensures
        entered_before(nodes, f, order2, k2, y),
{
    if !f.contains(y) {
        let j = choose|j: int| 0 <= j < k && #[trigger] has_edge(nodes, order[j] as int, y as int);
        assert(order2[j] == order[j]);
        assert(has_edge(nodes, order2[j] as int, y as int));
    }
}

spec fn seen_set(visited: Seq<bool>) -> Set<int> {
    Set::new(|a: int| 1 <= a <= visited.len() && visited[a - 1])
}

/// Every node is reached once the frontier is reached and the reached set is
/// closed under dependencies.
proof fn lemma_reached_all(nodes: Seq<TransactionNode>, f: Seq<u64>, seen: Set<int>, a: int)
    requires
        net_wf(nodes),
        is_frontier(nodes, f),
        nodes.len() < u64::MAX,
        forall|b: int| 1 <= b <= nodes.len() && f.contains(b as u64) ==> seen.contains(b),
        forall|b: int, x: int| #![trigger seen.contains(b), has_edge(nodes, b, x)]
            seen.contains(b) && has_edge(nodes, b, x) ==> seen.contains(x),
        1 <= a <= nodes.len(),
    ensures
        seen.contains(a),
    decreases nodes.len() - a,
{
    if !f.contains(a as u64) {
        assert(is_dependency(nodes, a));
        let i = choose|i: int| 0 <= i < nodes.len() && #[trigger] nodes[i].dependencies@.contains(a as u64);
        let k = choose|k: int| 0 <= k < nodes[i].dependencies@.len() && nodes[i].dependencies@[k] == a as u64;
        assert(nodes[i].dependencies@[k] <= i);
        assert(nodes[i].dependencies@[k] as int == a);
        assert(has_edge(nodes, i + 1, a));
        lemma_reached_all(nodes, f, seen, i + 1);
    }
}

/// Walks the graph depth first from its frontier, without revisiting a node
/// reached along two paths, and returns the nodes in the order visited.
pub fn dfs_order(net: &Net) -> (r: Vec<u64>)
    requires
        net_wf(net.nodes@),
        is_frontier(net.nodes@, net.frontier@),
        net.nodes@.len() < u64::MAX,
    ensures
        visits_each_once(net.nodes@, r@),
        forall|k: int| 0 <= k < r@.len() ==> entered_before(net.nodes@, net.frontier@, r@, k, #[trigger] r@[k]),
{
    let nodes = &net.nodes;
    let n = nodes.len();
    let mut visited: Vec<bool> = Vec::new();
    while visited.len() < n
        invariant
            visited@.len() <= n,
            forall|a: int| 0 <= a < visited@.len() ==> !(#[trigger] visited@[a]),
        decreases n - visited@.len(),
    {
        visited.push(false);
    }
    assert(seen_set(visited@) =~= Set::<int>::empty());
    let mut order: Vec<u64> = Vec::new();
    let mut stack: Vec<u64> = Vec::new();
    let mut i: usize = 0;
    while i < net.frontier.len()
        invariant
            n == nodes@.len(),
            nodes == net.nodes,
            is_frontier(nodes@, net.frontier@),
            i <= net.frontier@.len(),
            visited@.len() == n,
            order@.len() == 0,
            stack@.no_duplicates(),
            forall|k: int| 0 <= k < stack@.len() ==> 1 <= #[trigger] stack@[k] <= n,
            forall|a: int| 1 <= a <= n ==> (#[trigger] visited@[a - 1] <==> stack@.contains(a as u64)),
            forall|k: int| 0 <= k < i ==> visited@[net.frontier@[k] - 1],
            seen_set(visited@).len() == stack@.len(),
            seen_set(visited@).finite(),
            stack@.len() <= n,
            forall|l: int| 0 <= l < stack@.len() ==> entered_before(nodes@, net.frontier@, order@, 0, #[trigger] stack@[l]),
        decreases net.frontier@.len() - i,
    {
        let a = net.frontier[i];
        if !visited[a as usize - 1] {
            proof {
                assert(!stack@.contains(a));
                assert(seen_set(visited@).insert(a as int) =~= seen_set(visited@.update(a - 1, true)));
            }
            let ghost stack1 = stack@;
            visited.set(a as usize - 1, true);
            stack.push(a);
            proof {
                assert(net.frontier@[i as int] == a);
                assert forall|l: int| 0 <= l < stack@.len() implies entered_before(nodes@, net.frontier@, order@, 0, #[trigger] stack@[l]) by {
                    if l < stack1.len() {
                        assert(stack@[l] == stack1[l]);
                    }
                }
                assert forall|k: int, l: int| 0 <= k < l < stack@.len() implies stack@[k] != stack@[l] by {
                    if l == stack@.len() - 1 {
                        assert(stack1[k] == stack@[k]);
                        assert(stack1.contains(stack@[k]));
                    } else {
                        assert(stack1[k] == stack@[k] && stack1[l] == stack@[l]);
                    }
                }
                assert forall|b: int| 1 <= b <= n implies (#[trigger] visited@[b - 1] <==> stack@.contains(b as u64)) by {
                    if stack1.contains(b as u64) {
                        let l = choose|l: int| 0 <= l < stack1.len() && stack1[l] == b as u64;
                        assert(stack@[l] == b as u64);
                    }
                    if stack@.contains(b as u64) && b != a {
                        let l = choose|l: int| 0 <= l < stack@.len() && stack@[l] == b as u64;
                        assert(l < stack1.len());
                        assert(stack1[l] == b as u64);
                    }
                    assert(stack@[stack@.len() - 1] == a);
                }
                assert forall|c: int| seen_set(visited@).contains(c) implies set_int_range(1, n + 1).contains(c) by {}
                lemma_int_range(1, n + 1);
                lemma_len_subset(seen_set(visited@), set_int_range(1, n + 1));
            }
        }
        i = i + 1;
    }
    while stack.len() > 0
        invariant
            n == nodes@.len(),
            nodes == net.nodes,
            net_wf(nodes@),
            is_frontier(nodes@, net.frontier@),
            visited@.len() == n,
            order@.no_duplicates(),
            stack@.no_duplicates(),
            forall|a: u64| !(#[trigger] order@.contains(a) && stack@.contains(a)),
            forall|k: int| 0 <= k < stack@.len() ==> 1 <= #[trigger] stack@[k] <= n,
            forall|k: int| 0 <= k < order@.len() ==> 1 <= #[trigger] order@[k] <= n,
            forall|a: int| 1 <= a <= n ==> (#[trigger] visited@[a - 1] <==> (order@.contains(a as u64) || stack@.contains(a as u64))),
            forall|k: int| 0 <= k < net.frontier@.len() ==> visited@[net.frontier@[k] - 1],
            forall|b: int, y: int| #![trigger order@.contains(b as u64), has_edge(nodes@, b, y)]
                1 <= b <= n && order@.contains(b as u64) && has_edge(nodes@, b, y) ==> visited@[y - 1],
            seen_set(visited@).len() == order@.len() + stack@.len(),
            seen_set(visited@).finite(),
            order@.len() + stack@.len() <= n,
            forall|k: int| 0 <= k < order@.len() ==> entered_before(nodes@, net.frontier@, order@, k, #[trigger] order@[k]),
            forall|l: int| 0 <= l < stack@.len() ==> entered_before(nodes@, net.frontier@, order@, order@.len() as int, #[trigger] stack@[l]),
        decreases 2 * n - 2 * order@.len() - stack@.len(),
    {
        let ghost m0 = 2 * order@.len() + stack@.len();
        let ghost order0 = order@;
        let ghost stack0 = stack@;
        let x = stack.pop().unwrap();
        proof {
            assert(stack0 == stack@.push(x));
            assert(stack0.contains(x));
            assert(!order0.contains(x));
            assert(!stack@.contains(x)) by {
                if stack@.contains(x) {
                    let j = choose|j: int| 0 <= j < stack@.len() && stack@[j] == x;
                    assert(stack0[j] == stack0[stack0.len() - 1]);
                }
            }
            assert forall|j: int, l: int| 0 <= j < l < stack@.len() implies stack@[j] != stack@[l] by {
                assert(stack0[j] == stack@[j] && stack0[l] == stack@[l]);
            }
        }
        order.push(x);
        proof {
            assert(stack0[stack0.len() - 1] == x);
            assert(entered_before(nodes@, net.frontier@, order0, order0.len() as int, stack0[stack0.len() - 1]));
            assert forall|k: int| 0 <= k < order@.len() implies entered_before(nodes@, net.frontier@, order@, k, #[trigger] order@[k]) by {
                if k < order0.len() {
                    assert(order@[k] == order0[k]);
                    lemma_entered_mono(nodes@, net.frontier@, order0, order@, k, k, order0[k]);
                } else {
                    lemma_entered_mono(nodes@, net.frontier@, order0, order@, k, k, x);
                }
            }
            assert forall|l: int| 0 <= l < stack@.len() implies entered_before(nodes@, net.frontier@, order@, order@.len() as int, #[trigger] stack@[l]) by {
                assert(stack@[l] == stack0[l]);
                lemma_entered_mono(nodes@, net.frontier@, order0, order@, order0.len() as int, order@.len() as int, stack0[l]);
            }
            assert forall|j: int, l: int| 0 <= j < l < order@.len() implies order@[j] != order@[l] by {
                if l == order@.len() - 1 {
                    assert(order0.contains(order@[j]));
                }
            }
            assert forall|a: u64| !(#[trigger] order@.contains(a) && stack@.contains(a)) by {
                if order@.contains(a) && stack@.contains(a) {
                    let j = choose|j: int| 0 <= j < order@.len() && order@[j] == a;
                    let l = choose|l: int| 0 <= l < stack@.len() && stack@[l] == a;
                    assert(stack0[l] == a);
                    assert(stack0.contains(a));
                    if j < order0.len() {
                        assert(order0[j] == a);
                        assert(order0.contains(a));
                    } else {
                        assert(a == x);
                    }
                }
            }
            assert forall|a: int| 1 <= a <= n implies (#[trigger] visited@[a - 1] <==> (order@.contains(a as u64) || stack@.contains(a as u64))) by {
                if stack0.contains(a as u64) && a as u64 != x {
                    let l = choose|l: int| 0 <= l < stack0.len() && stack0[l] == a as u64;
                    assert(l < stack@.len());
                    assert(stack@[l] == a as u64);
                }
                if order0.contains(a as u64) {
                    let j = choose|j: int| 0 <= j < order0.len() && order0[j] == a as u64;
                    assert(order@[j] == a as u64);
                }
                if order@.contains(a as u64) && a as u64 != x {
                    let j = choose|j: int| 0 <= j < order@.len() && order@[j] == a as u64;
                    assert(j < order0.len());
                    assert(order0[j] == a as u64);
                }
                if stack@.contains(a as u64) {
                    let l = choose|l: int| 0 <= l < stack@.len() && stack@[l] == a as u64;
                    assert(stack0[l] == a as u64);
                }
                assert(order@[order@.len() - 1] == x);
            }
        }
        proof {
            assert(order@[order@.len() - 1] == x);
            assert(order@.contains(x));
            assert forall|b: int, y: int| #![trigger order@.contains(b as u64), has_edge(nodes@, b, y)]
                1 <= b <= n && b != x && order@.contains(b as u64) && has_edge(nodes@, b, y) implies visited@[y - 1] by {
                let j = choose|j: int| 0 <= j < order@.len() && order@[j] == b as u64;
                if j < order0.len() {
                    assert(order0[j] == b as u64);
                    assert(order0.contains(b as u64));
                } else {
                    assert(order@[j] == x);
                }
            }
        }
        let deps = &nodes[x as usize - 1].dependencies;
        let mut k: usize = 0;
        while k < deps.len()
            invariant
                n == nodes@.len(),
                net_wf(nodes@),
                1 <= x <= n,
                order@.contains(x),
                deps == nodes@[x - 1].dependencies,
                k <= deps@.len(),
                visited@.len() == n,
                order@.no_duplicates(),
                stack@.no_duplicates(),
                forall|a: u64| !(#[trigger] order@.contains(a) && stack@.contains(a)),
                forall|j: int| 0 <= j < stack@.len() ==> 1 <= #[trigger] stack@[j] <= n,
                forall|j: int| 0 <= j < order@.len() ==> 1 <= #[trigger] order@[j] <= n,
                forall|a: int| 1 <= a <= n ==> (#[trigger] visited@[a - 1] <==> (order@.contains(a as u64) || stack@.contains(a as u64))),
                nodes == net.nodes,
                is_frontier(nodes@, net.frontier@),
                forall|j: int| 0 <= j < net.frontier@.len() ==> visited@[net.frontier@[j] - 1],
                forall|b: int, y: int| #![trigger order@.contains(b as u64), has_edge(nodes@, b, y)]
                    1 <= b <= n && b != x && order@.contains(b as u64) && has_edge(nodes@, b, y) ==> visited@[y - 1],
                forall|j: int| 0 <= j < k ==> visited@[#[trigger] deps@[j] - 1],
                seen_set(visited@).len() == order@.len() + stack@.len(),
                seen_set(visited@).finite(),
                2 * order@.len() + stack@.len() > m0,
                order@.len() > 0,
                order@[order@.len() - 1] == x,
                forall|k2: int| 0 <= k2 < order@.len() ==> entered_before(nodes@, net.frontier@, order@, k2, #[trigger] order@[k2]),
                forall|l: int| 0 <= l < stack@.len() ==> entered_before(nodes@, net.frontier@, order@, order@.len() as int, #[trigger] stack@[l]),
            decreases deps@.len() - k,
        {
            let d = deps[k];
            assert(nodes@[x - 1].dependencies@[k as int] == d);
            assert(1 <= d < x);
            if !visited[d as usize - 1] {
                proof {
                    assert(seen_set(visited@).insert(d as int) =~= seen_set(visited@.update(d - 1, true)));
                    assert(!seen_set(visited@).contains(d as int));
                    assert(!order@.contains(d) && !stack@.contains(d));
                }
                let ghost stack1 = stack@;
                visited.set(d as usize - 1, true);
                stack.push(d);
                proof {
                    assert(has_edge(nodes@, x as int, d as int));
                    assert(order@[order@.len() - 1] == x);
                    assert(entered_before(nodes@, net.frontier@, order@, order@.len() as int, d)) by {
                        assert(has_edge(nodes@, order@[order@.len() - 1] as int, d as int));
                    }
                    assert forall|l: int| 0 <= l < stack@.len() implies entered_before(nodes@, net.frontier@, order@, order@.len() as int, #[trigger] stack@[l]) by {
                        if l < stack1.len() {
                            assert(stack@[l] == stack1[l]);
                        }
                    }
                    assert forall|j: int, l: int| 0 <= j < l < stack@.len() implies stack@[j] != stack@[l] by {
                        if l == stack@.len() - 1 {
                            assert(stack1.contains(stack@[j]));
                        } else {
                            assert(stack1[j] == stack@[j] && stack1[l] == stack@[l]);
                        }
                    }
                    assert forall|a: u64| !(#[trigger] order@.contains(a) && stack@.contains(a)) by {
                        if order@.contains(a) && stack@.contains(a) {
                            let l = choose|l: int| 0 <= l < stack@.len() && stack@[l] == a;
                            if l < stack1.len() {
                                assert(stack1[l] == a);
                            }
                        }
                    }
                    assert forall|a: int| 1 <= a <= n implies (#[trigger] visited@[a - 1] <==> (order@.contains(a as u64) || stack@.contains(a as u64))) by {
                        if stack1.contains(a as u64) {
                            let l = choose|l: int| 0 <= l < stack1.len() && stack1[l] == a as u64;
                            assert(stack@[l] == a as u64);
                        }
                        if stack@.contains(a as u64) && a != d {
                            let l = choose|l: int| 0 <= l < stack@.len() && stack@[l] == a as u64;
                            assert(l < stack1.len());
                            assert(stack1[l] == a as u64);
                        }
                        assert(stack@[stack@.len() - 1] == d);
                    }
                }
            }
            k = k + 1;
        }
        proof {
            assert forall|b: int, y: int| #![trigger order@.contains(b as u64), has_edge(nodes@, b, y)]
                1 <= b <= n && order@.contains(b as u64) && has_edge(nodes@, b, y) implies visited@[y - 1] by {
                if b == x {
                    let j = choose|j: int| 0 <= j < deps@.len() && #[trigger] deps@[j] as int == y;
                }
            }
            assert forall|a: int| seen_set(visited@).contains(a) implies set_int_range(1, n + 1).contains(a) by {}
            lemma_int_range(1, n + 1);
            lemma_len_subset(seen_set(visited@), set_int_range(1, n + 1));
        }
    }
    proof {
        let seen = seen_set(visited@);
        assert forall|b: int| 1 <= b <= n && net.frontier@.contains(b as u64) implies seen.contains(b) by {
            let k = choose|k: int| 0 <= k < net.frontier@.len() && net.frontier@[k] == b as u64;
        }
        assert forall|b: int, y: int| #![trigger seen.contains(b), has_edge(nodes@, b, y)]
            seen.contains(b) && has_edge(nodes@, b, y) implies seen.contains(y) by {
            assert(order@.contains(b as u64));
            assert(1 <= y < b) by {
                let j = choose|j: int| 0 <= j < nodes@[b - 1].dependencies@.len() && #[trigger] nodes@[b - 1].dependencies@[j] as int == y;
                assert(nodes@[b - 1].dependencies@[j] <= b - 1);
            }
        }
        assert forall|a: u64| 1 <= a <= n implies #[trigger] order@.contains(a) by {
            lemma_reached_all(nodes@, net.frontier@, seen, a as int);
        }
    }
    order
}

/// Whether `p` stands for an edge of the graph.
pub open spec fn is_edge_pair(nodes: Seq<TransactionNode>, p: TransactionDependency) -> bool {
    has_edge(nodes, p.0 as int, p.1 as int)
}

/// Strictly ascending in the lexicographic order of pairs; hence free of
/// repeats.
pub open spec fn sorted_strict(s: Seq<TransactionDependency>) -> bool {
    forall|k: int, l: int| 0 <= k < l < s.len() ==> dep_less(#[trigger] s[k], #[trigger] s[l])
}

/// The canonical report of a graph: each edge once, in ascending order.
pub open spec fn is_canonical_edge_list(nodes: Seq<TransactionNode>, r: Seq<TransactionDependency>) -> bool {
    &&& sorted_strict(r)
    &&& forall|p: TransactionDependency| #[trigger] r.contains(p) <==> is_edge_pair(nodes, p)
}

/// Collects the edges of the graph by a depth-first walk from the frontier:
/// each visited node contributes one pair per dependency.
pub fn traverse(net: &Net) -> (r: Vec<TransactionDependency>)
    requires
        net_wf(net.nodes@),
        is_frontier(net.nodes@, net.frontier@),
        net.nodes@.len() < u64::MAX,
    ensures
        forall|p: TransactionDependency| #[trigger] r@.contains(p) <==> is_edge_pair(net.nodes@, p),
        r@.no_duplicates(),
{
    let order = dfs_order(net);
    let nodes = &net.nodes;
    let mut r: Vec<TransactionDependency> = Vec::new();
    let mut i: usize = 0;
    while i < order.len()
        invariant
            nodes == net.nodes,
            visits_each_once(nodes@, order@),
            net_wf(nodes@),
            r@.no_duplicates(),
            i <= order@.len(),
            forall|p: TransactionDependency| #[trigger] r@.contains(p) <==> (is_edge_pair(nodes@, p)
                && exists|j: int| 0 <= j < i && order@[j] == p.0),
        decreases order@.len() - i,
    {
        let x = order[i];
        assert(1 <= order@[i as int] <= nodes@.len());
        assert(x == order@[i as int]);
        let n = nodes.len();
        assert(1 <= x && x as int <= n);
        let deps = &nodes[x as usize - 1].dependencies;
        let mut k: usize = 0;
        while k < deps.len()
            invariant
                nodes == net.nodes,
                visits_each_once(nodes@, order@),
                net_wf(nodes@),
                r@.no_duplicates(),
                i < order@.len(),
                x == order@[i as int],
                1 <= x <= nodes@.len(),
                deps == nodes@[x - 1].dependencies,
                k <= deps@.len(),
                forall|p: TransactionDependency| #[trigger] r@.contains(p) <==> ((is_edge_pair(nodes@, p)
                    && exists|j: int| 0 <= j < i && order@[j] == p.0) || (p.0 == x && exists|q: int| 0 <= q < k && deps@[q] == p.1)),
            decreases deps@.len() - k,
        {
            let ghost r0 = r@;
            let p = TransactionDependency(x, deps[k]);
            proof {
                if r0.contains(p) {
                    if exists|j: int| 0 <= j < i && order@[j] == p.0 {
                        let j = choose|j: int| 0 <= j < i && order@[j] == p.0;
                        assert(order@[j] == order@[i as int]);
                    } else {
                        let q = choose|q: int| 0 <= q < k && deps@[q] == p.1;
                        assert(nodes@[x - 1].dependencies@.no_duplicates());
                        assert(deps@[q] == deps@[k as int]);
                    }
                }
            }
            r.push(p);
            proof {
                assert forall|a: int, b: int| 0 <= a < b < r@.len() implies r@[a] != r@[b] by {
                    if b == r@.len() - 1 {
                        assert(r0.contains(r@[a]));
                    } else {
                        assert(r0[a] == r@[a] && r0[b] == r@[b]);
                    }
                }
                assert forall|p2: TransactionDependency| #[trigger] r@.contains(p2) <==> ((is_edge_pair(nodes@, p2)
                    && exists|j: int| 0 <= j < i && order@[j] == p2.0) || (p2.0 == x && exists|q: int| 0 <= q < k + 1 && deps@[q] == p2.1)) by {
                    if r0.contains(p2) {
                        let l = choose|l: int| 0 <= l < r0.len() && r0[l] == p2;
                        assert(r@[l] == p2);
                    }
                    if r@.contains(p2) && p2 != p {
                        let l = choose|l: int| 0 <= l < r@.len() && r@[l] == p2;
                        assert(r0[l] == p2);
                        assert(r0.contains(p2));
                    }
                    if p2 == p {
                        assert(r@[r@.len() - 1] == p);
                    }
                    if p2.0 == x && exists|q: int| 0 <= q < k + 1 && deps@[q] == p2.1 {
                        let q = choose|q: int| 0 <= q < k + 1 && deps@[q] == p2.1;
                        if q == k {
                            assert(p2 == p);
                        }
                    }
                }
            }
            k = k + 1;
        }
        proof {
            assert forall|p: TransactionDependency| #[trigger] r@.contains(p) <==> (is_edge_pair(nodes@, p)
                && exists|j: int| 0 <= j < i + 1 && order@[j] == p.0) by {
                if p.0 == x {
                    if is_edge_pair(nodes@, p) {
                        let q = choose|q: int| 0 <= q < deps@.len() && #[trigger] deps@[q] as int == p.1 as int;
                        assert(deps@[q] == p.1);
                    }
                    if exists|q: int| 0 <= q < deps@.len() && deps@[q] == p.1 {
                        let q = choose|q: int| 0 <= q < deps@.len() && deps@[q] == p.1;
                        assert(deps@[q] as int == p.1 as int);
                    }
                } else if exists|j: int| 0 <= j < i + 1 && order@[j] == p.0 {
                    let j = choose|j: int| 0 <= j < i + 1 && order@[j] == p.0;
                    assert(j != i);
                }
            }
        }
        i = i + 1;
    }
    proof {
        assert forall|p: TransactionDependency| #[trigger] r@.contains(p) <==> is_edge_pair(nodes@, p) by {
            if is_edge_pair(nodes@, p) {
                assert(order@.contains(p.0));
                let j = choose|j: int| 0 <= j < order@.len() && order@[j] == p.0;
            }
        }
    }
    r
}

fn less(a: &TransactionDependency, b: &TransactionDependency) -> (r: bool)
    ensures
        r == dep_less(*a, *b),
{
    a.0 < b.0 || (a.0 == b.0 && a.1 < b.1)
}

/// Puts `p` into a strictly ascending list unless it is already there.
fn insert_sorted(out: &mut Vec<TransactionDependency>, p: TransactionDependency)
    requires
        sorted_strict(old(out)@),
    ensures
        sorted_strict(final(out)@),
        forall|q: TransactionDependency| #[trigger] final(out)@.contains(q) <==> (old(out)@.contains(q) || q == p),
{
    let mut j: usize = 0;
    while j < out.len() && less(&out[j], &p)
        invariant
            j <= out@.len(),
            forall|k: int| 0 <= k < j ==> dep_less(#[trigger] out@[k], p),
        decreases out@.len() - j,
    {
        j = j + 1;
    }
    if j < out.len() && out[j] == p {
        assert(out@[j as int] == p);
        return;
    }
    let ghost o = out@;
    out.insert(j, p);
    proof {
        assert forall|k: int, l: int| 0 <= k < l < out@.len() implies dep_less(#[trigger] out@[k], #[trigger] out@[l]) by {
            if l < j {
                assert(out@[k] == o[k] && out@[l] == o[l]);
            } else if l == j {
                assert(out@[k] == o[k]);
            } else if k < j {
                assert(out@[k] == o[k] && out@[l] == o[l - 1]);
                assert(dep_less(o[k], p));
                assert(!dep_less(o[j as int], p) && o[j as int] != p);
                if j as int != l - 1 {
                    assert(dep_less(o[j as int], o[l - 1]));
                }
            } else if k == j {
                assert(out@[l] == o[l - 1]);
                assert(!dep_less(o[j as int], p) && o[j as int] != p);
                if j as int != l - 1 {
                    assert(dep_less(o[j as int], o[l - 1]));
                }
            } else {
                assert(out@[k] == o[k - 1] && out@[l] == o[l - 1]);
            }
        }
        assert forall|q: TransactionDependency| #[trigger] out@.contains(q) <==> (o.contains(q) || q == p) by {
            if o.contains(q) {
                let l = choose|l: int| 0 <= l < o.len() && o[l] == q;
                if l < j {
                    assert(out@[l] == q);
                } else {
                    assert(out@[l + 1] == q);
                }
            }
            if q == p {
                assert(out@[j as int] == p);
            }
            if out@.contains(q) {
                let l = choose|l: int| 0 <= l < out@.len() && out@[l] == q;
                if l < j {
                    assert(o[l] == q);
                } else if l > j {
                    assert(o[l - 1] == q);
                }
            }
        }
    }
}

/// Sorts a list of pairs ascending and drops repeats.
pub fn sort_dedup(v: &Vec<TransactionDependency>) -> (r: Vec<TransactionDependency>)
    ensures
        sorted_strict(r@),
        forall|q: TransactionDependency| #[trigger] r@.contains(q) <==> v@.contains(q),
{
    let mut out: Vec<TransactionDependency> = Vec::new();
    let mut i: usize = 0;
    while i < v.len()
        invariant
            i <= v@.len(),
            sorted_strict(out@),
            forall|q: TransactionDependency| #[trigger] out@.contains(q) <==> v@.take(i as int).contains(q),
        decreases v@.len() - i,
    {
        insert_sorted(&mut out, v[i]);
        proof {
            assert(v@.take(i + 1) =~= v@.take(i as int).push(v@[i as int]));
            assert forall|q: TransactionDependency| #[trigger] out@.contains(q) <==> v@.take(i + 1).contains(q) by {
                if q == v@[i as int] {
                    assert(v@.take(i + 1)[i as int] == q);
                }
                if v@.take(i as int).contains(q) {
                    let l = choose|l: int| 0 <= l < i && #[trigger] v@.take(i as int)[l] == q;
                    assert(v@.take(i + 1)[l] == q);
                }
                if v@.take(i + 1).contains(q) {
                    let l = choose|l: int| 0 <= l < i + 1 && #[trigger] v@.take(i + 1)[l] == q;
                    if l < i {
                        assert(v@.take(i as int)[l] == q);
                    }
                }
            }
        }
        i = i + 1;
    }
    assert(v@.take(v@.len() as int) =~= v@);
    out
}

/// The graph's edges, each once, in ascending order: the traversal followed
/// by sorting and removing repeats.
pub fn canonical_edges(net: &Net) -> (r: Vec<TransactionDependency>)
    requires
        net_wf(net.nodes@),
        is_frontier(net.nodes@, net.frontier@),
        net.nodes@.len() < u64::MAX,
    ensures
        is_canonical_edge_list(net.nodes@, r@),
{
    let all = traverse(net);
    sort_dedup(&all)
}

proof fn lemma_sorted_same_elements(s1: Seq<TransactionDependency>, s2: Seq<TransactionDependency>)
    requires
        sorted_strict(s1),
        sorted_strict(s2),
        forall|p: TransactionDependency| #[trigger] s1.contains(p) <==> s2.contains(p),
    ensures
        s1 == s2,
    decreases s1.len() + s2.len(),
{
    if s1.len() == 0 || s2.len() == 0 {
        if s1.len() > 0 {
            assert(s1.contains(s1[0]));
            assert(s2.contains(s1[0]));
        }
        if s2.len() > 0 {
            assert(s2.contains(s2[0]));
            assert(s1.contains(s2[0]));
        }
        assert(s1 =~= s2);
    } else {
        assert(s1.contains(s1[0]));
        assert(s2.contains(s2[0]));
        assert(s2.contains(s1[0]));
        assert(s1.contains(s2[0]));
        let j = choose|j: int| 0 <= j < s2.len() && s2[j] == s1[0];
        let l = choose|l: int| 0 <= l < s1.len() && s1[l] == s2[0];
        if j > 0 {
            assert(dep_less(s2[0], s2[j]));
        }
        if l > 0 {
            assert(dep_less(s1[0], s1[l]));
        }
        assert(s1[0] == s2[0]);
        let t1 = s1.drop_first();
        let t2 = s2.drop_first();
        assert forall|k: int, m: int| 0 <= k < m < t1.len() implies dep_less(#[trigger] t1[k], #[trigger] t1[m]) by {
            assert(t1[k] == s1[k + 1] && t1[m] == s1[m + 1]);
        }
        assert forall|k: int, m: int| 0 <= k < m < t2.len() implies dep_less(#[trigger] t2[k], #[trigger] t2[m]) by {
            assert(t2[k] == s2[k + 1] && t2[m] == s2[m + 1]);
        }
        assert forall|p: TransactionDependency| #[trigger] t1.contains(p) <==> t2.contains(p) by {
            if t1.contains(p) {
                let a = choose|a: int| 0 <= a < t1.len() && t1[a] == p;
                assert(s1[a + 1] == p);
                assert(s1.contains(p));
                assert(s2.contains(p));
                let b = choose|b: int| 0 <= b < s2.len() && s2[b] == p;
                assert(dep_less(s1[0], s1[a + 1]));
                assert(b != 0);
                assert(t2[b - 1] == p);
            }
            if t2.contains(p) {
                let a = choose|a: int| 0 <= a < t2.len() && t2[a] == p;
                assert(s2[a + 1] == p);
                assert(s2.contains(p));
                assert(s1.contains(p));
                let b = choose|b: int| 0 <= b < s1.len() && s1[b] == p;
                assert(dep_less(s2[0], s2[a + 1]));
                assert(b != 0);
                assert(t1[b - 1] == p);
            }
        }
        lemma_sorted_same_elements(t1, t2);
        assert(s1 =~= s2) by {
            assert forall|k: int| 0 <= k < s1.len() implies s1[k] == s2[k] by {
                if k > 0 {
                    assert(s1[k] == t1[k - 1] && s2[k] == t2[k - 1]);
                }
            }
        }
    }
}

/// The report does not depend on the run that produced it: any two canonical
/// edge lists of one graph, such as the results of two runs of
/// `canonical_edges` on it, are the same list.
pub proof fn lemma_canonical_unique(nodes: Seq<TransactionNode>, r1: Seq<TransactionDependency>, r2: Seq<TransactionDependency>)
    requires
        is_canonical_edge_list(nodes, r1),
        is_canonical_edge_list(nodes, r2),
    ensures
        r1 == r2,
{
    assert forall|p: TransactionDependency| #[trigger] r1.contains(p) <==> r2.contains(p) by {
        assert(r1.contains(p) <==> is_edge_pair(nodes, p));
        assert(r2.contains(p) <==> is_edge_pair(nodes, p));
    }
    lemma_sorted_same_elements(r1, r2);
}

} // verus!
