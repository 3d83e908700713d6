//! The planner: from a terminal register to an ordered op schedule and the
//! leaf registers that take initial states.
use vstd::prelude::*;

use crate::qubits::{graph_wf, node_ok, op_at, CircuitError, OpBuilder, Parent, Qubit, Register};

verus! {

/// Node `b` is a direct ancestor of node `a`: one of its merged children, or
/// the node that it was split from.
pub open spec fn edge<T>(nodes: Seq<Qubit<T>>, a: int, b: int) -> bool {
    match nodes[a].parent {
        Some(Parent::Owned(ch, _)) => exists|j: int| 0 <= j < ch@.len() && ch@[j] as int == b,
        Some(Parent::Shared(p)) => p as int == b,
        None => false,
    }
}

/// A walk along ancestor edges through nodes of the graph.
pub open spec fn is_path<T>(nodes: Seq<Qubit<T>>, p: Seq<int>) -> bool {
    &&& p.len() > 0
    &&& forall|i: int| 0 <= i < p.len() ==> 0 <= #[trigger] p[i] < nodes.len()
    &&& forall|i: int| 0 <= i < p.len() - 1 ==> #[trigger] edge(nodes, p[i], p[i + 1])
}

/// Node `id` is reached from the terminal node `t` along ancestor edges.
pub open spec fn reachable<T>(nodes: Seq<Qubit<T>>, t: int, id: int) -> bool {
    exists|p: Seq<int>| #[trigger] is_path(nodes, p) && p[0] == t && p.last() == id
}

/// Ancestor edges lead to smaller ids.
proof fn lemma_edge_down<T>(nodes: Seq<Qubit<T>>, n: nat, a: int, b: int)
    requires
        graph_wf(nodes, n),
        0 <= a < nodes.len(),
        edge(nodes, a, b),
    ensures
        0 <= b < a,
{
    assert(node_ok(nodes, a, n));
    match nodes[a].parent {
        Some(Parent::Owned(ch, _)) => {
            let j = choose|j: int| 0 <= j < ch@.len() && ch@[j] as int == b;
            assert(ch@[j] < a);
        },
        _ => {},
    }
}

/// Every node on a path comes no later than its start.
proof fn lemma_path_below_start<T>(nodes: Seq<Qubit<T>>, n: nat, p: Seq<int>, i: int)
    requires
        graph_wf(nodes, n),
        is_path(nodes, p),
        0 <= i < p.len(),
    ensures
        p[i] <= p[0],
    decreases i,
{
    if i > 0 {
        lemma_path_below_start(nodes, n, p, i - 1);
        let j = i - 1;
        assert(edge(nodes, p[j], p[j + 1]));
        assert(0 <= p[j] < nodes.len());
        lemma_edge_down(nodes, n, p[i - 1], p[i]);
    }
}

/// The terminal reaches itself.
proof fn lemma_reached_self<T>(nodes: Seq<Qubit<T>>, t: int)
    requires
        0 <= t < nodes.len(),
    ensures
        reachable(nodes, t, t),
{
    let p = seq![t];
    assert(is_path(nodes, p));
}

/// A direct ancestor of a reached node is reached.
proof fn lemma_reached_by_edge<T>(nodes: Seq<Qubit<T>>, t: int, id: int, x: int)
    requires
        0 <= id < nodes.len(),
        reachable(nodes, t, x),
        edge(nodes, x, id),
    ensures
        reachable(nodes, t, id),
{
    let p = choose|p: Seq<int>| #[trigger] is_path(nodes, p) && p[0] == t && p.last() == x;
    let q = p.push(id);
    assert forall|i: int| 0 <= i < q.len() implies 0 <= #[trigger] q[i] < nodes.len() by {
        if i < p.len() {
            assert(q[i] == p[i]);
        }
    }
    assert forall|i: int| 0 <= i < q.len() - 1 implies #[trigger] edge(nodes, q[i], q[i + 1]) by {
        if i < p.len() - 1 {
            assert(edge(nodes, p[i], p[i + 1]));
        }
    }
    assert(is_path(nodes, q));
}

/// A reached node lies between the start of the graph and its terminal,
/// and, unless it is the terminal, is a direct ancestor of a later reached
/// node.
proof fn lemma_reached_has_edge<T>(nodes: Seq<Qubit<T>>, n: nat, t: int, id: int) -> (x: int)
    requires
        graph_wf(nodes, n),
        reachable(nodes, t, id),
    ensures
        0 <= id <= t < nodes.len(),
        id != t ==> id < x <= t && reachable(nodes, t, x) && edge(nodes, x, id),
{
    let p = choose|p: Seq<int>| #[trigger] is_path(nodes, p) && p[0] == t && p.last() == id;
    lemma_path_below_start(nodes, n, p, p.len() - 1);
    assert(0 <= p[0] < nodes.len());
    assert(0 <= p[p.len() - 1] < nodes.len());
    if id != t {
        let k = p.len() - 2;
        let x = p[k];
        let q = p.subrange(0, k + 1);
        assert forall|i: int| 0 <= i < q.len() implies 0 <= #[trigger] q[i] < nodes.len() by {
            assert(q[i] == p[i]);
        }
        assert forall|i: int| 0 <= i < q.len() - 1 implies #[trigger] edge(nodes, q[i], q[i + 1]) by {
            assert(edge(nodes, p[i], p[i + 1]));
        }
        assert(is_path(nodes, q));
        assert(edge(nodes, p[k], p[k + 1]));
        assert(0 <= p[k] < nodes.len());
        lemma_edge_down(nodes, n, x, id);
        lemma_path_below_start(nodes, n, p, k);
        x
    } else {
        t
    }
}

/// The outcome of planning: the ids of the op nodes to run, in order, and
/// the ids of the leaf registers that take initial states.
pub struct Plan {
    pub schedule: Vec<u64>,
    pub leaves: Vec<u64>,
}

/// Strictly ascending ids.
pub open spec fn ascending(s: Seq<u64>) -> bool {
    forall|i: int, j: int| 0 <= i < j < s.len() ==> s[i] < s[j]
}

/// Marks the direct ancestors of node `a` as reached.
fn mark_ancestors<T>(b: &OpBuilder<T>, a: usize, reach: &mut Vec<bool>)
    requires
        b.wf(),
        a < old(reach)@.len() <= b.nodes().len(),
    ensures
        final(reach)@.len() == old(reach)@.len(),
        forall|id: int|
            0 <= id < old(reach)@.len() ==> #[trigger] final(reach)@[id] == (old(reach)@[id] || edge(
                b.nodes(),
                a as int,
                id,
            )),
        forall|id: int| a <= id < old(reach)@.len() ==> #[trigger] final(reach)@[id] == old(reach)@[id],
{
    let node = b.node(a);
    proof {
        assert(node_ok(b.nodes(), a as int, b.next_index()));
    }
    match &node.parent {
        Some(Parent::Owned(ch, _)) => {
            let ghost r0 = reach@;
            let mut k: usize = 0;
            while k < ch.len()
                invariant
                    k <= ch@.len(),
                    reach@.len() == r0.len(),
                    a < r0.len(),
                    forall|i: int| 0 <= i < ch@.len() ==> (#[trigger] ch@[i]) < a,
                    forall|id: int|
                        0 <= id < r0.len() ==> #[trigger] reach@[id] == (r0[id] || exists|j: int|
                            0 <= j < k && ch@[j] as int == id),
                decreases ch@.len() - k,
            {
                let c = ch[k];
                reach.set(c as usize, true);
                proof {
                    assert forall|id: int| 0 <= id < r0.len() implies #[trigger] reach@[id] == (r0[id]
                        || exists|j: int| 0 <= j < k + 1 && ch@[j] as int == id) by {
                        if id == c as int {
                            assert(ch@[k as int] as int == id);
                        }
                    }
                }
                k = k + 1;
            }
            assert(ch@.subrange(0, ch@.len() as int) == ch@);
        },
        Some(Parent::Shared(p)) => {
            reach.set(*p as usize, true);
        },
        None => {},
    }
}

/// Plans the run of `terminal`: every reached op node exactly once, in
/// ascending id order, so that no op comes before an op it depends on; and
/// the reached leaves.
pub fn plan<T>(b: &OpBuilder<T>, terminal: &Register) -> (r: Plan)
    requires
        b.wf(),
        b.owns(*terminal),
    ensures
        ascending(r.schedule@),
        ascending(r.leaves@),
        forall|id: u64|
            r.schedule@.contains(id) <==> (reachable(b.nodes(), terminal.id as int, id as int) && op_at(
                b.nodes()[id as int],
            ) is Some),
        forall|id: u64|
            r.leaves@.contains(id) <==> (reachable(b.nodes(), terminal.id as int, id as int)
                && b.nodes()[id as int].parent is None),
        forall|i: int, j: int|
            0 <= i < j < r.schedule@.len() ==> !reachable(
                b.nodes(),
                #[trigger] r.schedule@[i] as int,
                #[trigger] r.schedule@[j] as int,
            ),
{
    let n = b.node_count();
    let t = terminal.id as usize;
    let ghost nodes = b.nodes();
    let mut reach: Vec<bool> = Vec::new();
    let mut i: usize = 0;
    while i <= t
        invariant
            i <= t + 1,
            t < nodes.len(),
            n == nodes.len(),
            nodes == b.nodes(),
            reach@.len() == i,
            forall|k: int| 0 <= k < i ==> reach@[k] == (k == t),
        decreases t + 1 - i,
    {
        reach.push(i == t);
        i = i + 1;
    }
    // Walk down from the terminal; node `a` is final once every node above it
    // has passed its mark on.
    let mut a: usize = t + 1;
    while a > 0
        invariant
            a <= t + 1,
            t < nodes.len(),
            n == nodes.len(),
            nodes == b.nodes(),
            b.wf(),
            reach@.len() == t + 1,
            forall|id: int| a <= id <= t ==> #[trigger] reach@[id] == reachable(nodes, t as int, id),
            forall|id: int|
                0 <= id < a ==> #[trigger] reach@[id] == (id == t || exists|x: int|
                    a <= x <= t && #[trigger] reachable(nodes, t as int, x) && edge(nodes, x, id)),
        decreases a,
    {
        a = a - 1;
        let ghost before = reach@;
        proof {
            if a == t {
                lemma_reached_self(nodes, t as int);
            }
            if a < t {
                let e = exists|x: int| a + 1 <= x <= t && #[trigger] reachable(nodes, t as int, x) && edge(nodes, x, a as int);
                assert(reach@[a as int] == (a == t || e));
                if e {
                    let x = choose|x: int| a + 1 <= x <= t && #[trigger] reachable(nodes, t as int, x) && edge(nodes, x, a as int);
                    lemma_reached_by_edge(nodes, t as int, a as int, x);
                }
                if reachable(nodes, t as int, a as int) {
                    let x = lemma_reached_has_edge(nodes, b.next_index(), t as int, a as int);
                    assert(a + 1 <= x <= t && reachable(nodes, t as int, x) && edge(nodes, x, a as int));
                }
            }
        }
        let here = reach[a];
        if here {
            mark_ancestors(b, a, &mut reach);
        }
        proof {
            assert(here == reachable(nodes, t as int, a as int));
            assert forall|id: int| 0 <= id < a implies #[trigger] reach@[id] == (id == t || exists|x: int|
                a <= x <= t && #[trigger] reachable(nodes, t as int, x) && edge(nodes, x, id)) by {
                let e0 = exists|x: int| a + 1 <= x <= t && #[trigger] reachable(nodes, t as int, x) && edge(nodes, x, id);
                assert(before[id] == (id == t || e0));
                if exists|x: int| a <= x <= t && #[trigger] reachable(nodes, t as int, x) && edge(nodes, x, id) {
                    let x = choose|x: int| a <= x <= t && #[trigger] reachable(nodes, t as int, x) && edge(nodes, x, id);
                    if x > a {
                        assert(before[id]);
                    } else {
                        assert(here);
                    }
                }
                if reach@[id] && !before[id] {
                    assert(here && edge(nodes, a as int, id));
                    assert(reachable(nodes, t as int, a as int));
                    lemma_edge_down(nodes, b.next_index(), a as int, id);
                    lemma_reached_by_edge(nodes, t as int, id, a as int);
                }
            }
        }
    }
    let mut schedule: Vec<u64> = Vec::new();
    let mut leaves: Vec<u64> = Vec::new();
    let mut k: usize = 0;
    while k <= t
        invariant
            k <= t + 1,
            t < nodes.len(),
            n == nodes.len(),
            nodes == b.nodes(),
            reach@.len() == t + 1,
            forall|id: int| 0 <= id <= t ==> #[trigger] reach@[id] == reachable(nodes, t as int, id),
            forall|j: int| 0 <= j < schedule@.len() ==> schedule@[j] < k,
            forall|j: int| 0 <= j < leaves@.len() ==> leaves@[j] < k,
            ascending(schedule@),
            ascending(leaves@),
            forall|id: u64|
                schedule@.contains(id) <==> (id < k && reachable(nodes, t as int, id as int) && op_at(
                    nodes[id as int],
                ) is Some),
            forall|id: u64|
                leaves@.contains(id) <==> (id < k && reachable(nodes, t as int, id as int)
                    && nodes[id as int].parent is None),
        decreases t + 1 - k,
    {
        let node = b.node(k);
        let ghost s0 = schedule@;
        let ghost l0 = leaves@;
        let has_op = match &node.parent {
            Some(Parent::Owned(_, Some(_))) => true,
            _ => false,
        };
        assert(has_op == (op_at(nodes[k as int]) is Some));
        assert(reach@[k as int] == reachable(nodes, t as int, k as int));
        if reach[k] {
            if has_op {
                schedule.push(k as u64);
            }
            if node.parent.is_none() {
                leaves.push(k as u64);
            }
        }
        proof {
            assert forall|id: u64| schedule@.contains(id) <==> (id < k + 1 && reachable(nodes, t as int, id as int)
                && op_at(nodes[id as int]) is Some) by {
                if schedule@.contains(id) {
                    let j = choose|j: int| 0 <= j < schedule@.len() && schedule@[j] == id;
                    if j < s0.len() {
                        assert(s0[j] == id);
                        assert(s0.contains(id));
                    } else {
                        assert(id == k as u64);
                    }
                }
                if id < k && reachable(nodes, t as int, id as int) && op_at(nodes[id as int]) is Some {
                    assert(s0.contains(id));
                    let j = choose|j: int| 0 <= j < s0.len() && s0[j] == id;
                    assert(schedule@[j] == id);
                }
                if id == k as u64 && reachable(nodes, t as int, id as int) && op_at(nodes[id as int]) is Some {
                    assert(schedule@[schedule@.len() - 1] == id);
                }
            }
            assert forall|id: u64| leaves@.contains(id) <==> (id < k + 1 && reachable(nodes, t as int, id as int)
                && nodes[id as int].parent is None) by {
                if leaves@.contains(id) {
                    let j = choose|j: int| 0 <= j < leaves@.len() && leaves@[j] == id;
                    if j < l0.len() {
                        assert(l0[j] == id);
                        assert(l0.contains(id));
                    } else {
                        assert(id == k as u64);
                    }
                }
                if id < k && reachable(nodes, t as int, id as int) && nodes[id as int].parent is None {
                    assert(l0.contains(id));
                    let j = choose|j: int| 0 <= j < l0.len() && l0[j] == id;
                    assert(leaves@[j] == id);
                }
                if id == k as u64 && reachable(nodes, t as int, id as int) && nodes[id as int].parent is None {
                    assert(leaves@[leaves@.len() - 1] == id);
                }
            }
        }
        k = k + 1;
    }
    proof {
        assert forall|id: u64| reachable(nodes, t as int, id as int) implies id <= t by {
            let _ = lemma_reached_has_edge(nodes, b.next_index(), t as int, id as int);
        }
    }
    proof {
        assert forall|i: int, j: int| 0 <= i < j < schedule@.len() implies !reachable(
            nodes,
            #[trigger] schedule@[i] as int,
            #[trigger] schedule@[j] as int,
        ) by {
            if reachable(nodes, schedule@[i] as int, schedule@[j] as int) {
                let _ = lemma_reached_has_edge(nodes, b.next_index(), schedule@[i] as int, schedule@[j] as int);
            }
        }
    }
    Plan { schedule, leaves }
}

/// Checks that every binding names a reached leaf.
pub fn check_bindings(p: &Plan, ids: &Vec<u64>) -> (r: Result<(), CircuitError>)
    ensures
        r is Ok <==> forall|i: int| 0 <= i < ids@.len() ==> p.leaves@.contains(#[trigger] ids@[i]),
        r is Err ==> r == Err::<(), _>(CircuitError::UnreachableBinding),
{
    let mut i: usize = 0;
    while i < ids.len()
        invariant
            i <= ids@.len(),
            forall|j: int| 0 <= j < i ==> p.leaves@.contains(#[trigger] ids@[j]),
        decreases ids@.len() - i,
    {
        let mut found = false;
        let mut k: usize = 0;
        while k < p.leaves.len()
            invariant
                k <= p.leaves@.len(),
                found == p.leaves@.subrange(0, k as int).contains(ids@[i as int]),
                i < ids@.len(),
            decreases p.leaves@.len() - k,
        {
            proof {
                let s1 = p.leaves@.subrange(0, k + 1);
                assert(s1 == p.leaves@.subrange(0, k as int).push(p.leaves@[k as int]));
                if p.leaves@.subrange(0, k as int).contains(ids@[i as int]) {
                    let s0 = p.leaves@.subrange(0, k as int);
                    let j = choose|j: int| 0 <= j < k && s0[j] == ids@[i as int];
                    assert(s1[j] == ids@[i as int]);
                }
                assert(s1[k as int] == p.leaves@[k as int]);
                if s1.contains(ids@[i as int]) && p.leaves@[k as int] != ids@[i as int] {
                    let j = choose|j: int| 0 <= j < k + 1 && s1[j] == ids@[i as int];
                    assert(p.leaves@.subrange(0, k as int)[j] == ids@[i as int]);
                }
            }
            if p.leaves[k] == ids[i] {
                found = true;
            }
            k = k + 1;
        }
        assert(p.leaves@.subrange(0, p.leaves@.len() as int) == p.leaves@);
        if !found {
            return Err(CircuitError::UnreachableBinding);
        }
        i = i + 1;
    }
    Ok(())
}

} // verus!
