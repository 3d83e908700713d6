//! Registers, the register graph, and the builder that records a circuit.
use vstd::prelude::*;

use crate::ops::{base_of, controls_of, depth_of, lemma_pow2_grows, matrix_len_ok, pow2, QubitOp};

verus! {

/// The errors of circuit construction and execution.
#[derive(Debug, Clone, Copy, PartialEq, Eq, Structural)]
pub enum CircuitError {
    /// A matrix length or swap width disagrees with the operand index count.
    ShapeMismatch,
    /// A duplicate index, a control overlapping an operand, or a split
    /// selection that is not a subset.
    IndexConflict,
    /// A zero-width register was asked for.
    EmptyWidth,
    /// An initial state bound to a register not reachable from the terminal.
    UnreachableBinding,
    /// An explicit initial state that is not normalised.
    UnnormalizedInput,
    /// The run was cancelled.
    Cancelled,
    /// A backend resource limit was exceeded.
    BackendExhaustion,
}

/// Possible relations to a parent node. Parentage is expressed by ids, which
/// only ever refer backwards, so the graph is acyclic by construction.
pub enum Parent<T> {
    /// Merged from the children with these ids, with an optional op applied.
    Owned(Vec<u64>, Option<QubitOp<T>>),
    /// One of the parts that the node with this id was split into.
    Shared(u64),
}

/// A node of the register graph: a set of physical qubit indices with its
/// parentage.
pub struct Qubit<T> {
    pub indices: Vec<u64>,
    pub parent: Option<Parent<T>>,
    pub id: u64,
}

/// A live register held by the user. Every builder call consumes the
/// registers it is given and hands back fresh ones.
pub struct Register {
    pub indices: Vec<u64>,
    pub id: u64,
}

impl Register {
    /// The number of indices.
    pub fn width(&self) -> (r: usize)
        ensures
            r == self.indices@.len(),
    {
        self.indices.len()
    }

    /// A handle for binding an initial state to this register.
    pub fn handle(&self) -> (r: RegisterHandle)
        ensures
            r.id == self.id,
            r.n == self.indices@.len(),
    {
        RegisterHandle { id: self.id, n: self.indices.len() as u64 }
    }
}

/// Registers are the same register when they have the same id.
impl PartialEq for Register {
    fn eq(&self, other: &Register) -> (r: bool) {
        self.id == other.id
    }
}

impl vstd::std_specs::cmp::PartialEqSpecImpl for Register {
    open spec fn obeys_eq_spec() -> bool {
        true
    }

    open spec fn eq_spec(&self, other: &Register) -> bool {
        self.id == other.id
    }
}

impl Eq for Register {

}

/// A non-consuming reference to a leaf register, by id and width.
#[derive(Debug, Clone, Copy, PartialEq, Eq, Structural)]
pub struct RegisterHandle {
    pub id: u64,
    pub n: u64,
}

/// An initial state bound to the register with the given id.
pub enum InitialState<T> {
    /// The basis state holding this value.
    Index(u64, u64),
    /// An explicit amplitude vector of length `2^n`.
    FullState(u64, Vec<T>),
}

impl RegisterHandle {
    /// The basis state `|i>` of this register. Fails with `ShapeMismatch`
    /// when `i` does not fit in `n` bits.
    pub fn make_init_from_index<T>(&self, i: u64) -> (r: Result<InitialState<T>, CircuitError>)
        ensures
            r is Ok <==> (self.n >= 64 || (i as nat) < pow2(self.n as nat)),
            r is Ok ==> r == Ok::<InitialState<T>, CircuitError>(InitialState::Index(self.id, i)),
            r is Err ==> r == Err::<InitialState<T>, CircuitError>(CircuitError::ShapeMismatch),
    {
        if self.n >= 64 {
            return Ok(InitialState::Index(self.id, i));
        }
        let mut p: u64 = 1;
        let mut k: u64 = 0;
        while k < self.n
            invariant
                k <= self.n < 64,
                p as nat == pow2(k as nat),
                p <= 0x8000_0000_0000_0000u64,
            decreases self.n - k,
        {
            proof {
                lemma_pow2_grows((k + 1) as nat, 63);
                lemma_pow2_63();
            }
            p = p * 2;
            k = k + 1;
        }
        if i < p {
            Ok(InitialState::Index(self.id, i))
        } else {
            Err(CircuitError::ShapeMismatch)
        }
    }

    /// An explicit state of this register. Fails with `ShapeMismatch` unless
    /// `v` has `2^n` amplitudes.
    pub fn make_init_from_state<T>(&self, v: Vec<T>) -> (r: Result<InitialState<T>, CircuitError>)
        ensures
            r is Ok <==> v@.len() == pow2(self.n as nat),
            r is Ok ==> (match r->Ok_0 {
                InitialState::FullState(id, w) => id == self.id && w@ == v@,
                _ => false,
            }),
            r is Err ==> r == Err::<InitialState<T>, CircuitError>(CircuitError::ShapeMismatch),
    {
        let len = v.len();
        let mut p: usize = 1;
        let mut k: u64 = 0;
        while k < self.n
            invariant
                k <= self.n,
                p as nat == pow2(k as nat),
                p <= len || (k == 0 && p == 1),
                len == v@.len(),
            decreases self.n - k,
        {
            if p > len / 2 {
                proof {
                    lemma_pow2_grows((k + 1) as nat, self.n as nat);
                    assert(pow2((k + 1) as nat) == 2 * pow2(k as nat));
                    assert(2 * p > len);
                    assert(pow2(self.n as nat) >= pow2((k + 1) as nat));
                }
                return Err(CircuitError::ShapeMismatch);
            }
            p = p * 2;
            k = k + 1;
        }
        if p == len {
            Ok(InitialState::FullState(self.id, v))
        } else {
            Err(CircuitError::ShapeMismatch)
        }
    }
}

/// `2^63` is the largest power of two in a `u64`.
proof fn lemma_pow2_63()
    ensures
        pow2(63) == 0x8000_0000_0000_0000u64,
{
    reveal_with_fuel(pow2, 64);
}

/// Concatenation of a sequence of index lists.
pub open spec fn concat(ss: Seq<Seq<u64>>) -> Seq<u64>
    decreases ss.len(),
{
    if ss.len() == 0 {
        Seq::empty()
    } else {
        concat(ss.drop_last()) + ss.last()
    }
}

/// The index lists of a sequence of registers.
pub open spec fn index_lists(qs: Seq<Register>) -> Seq<Seq<u64>> {
    qs.map_values(|q: Register| q.indices@)
}

/// Strictly ascending, hence free of duplicates.
pub open spec fn strictly_sorted(s: Seq<u64>) -> bool {
    forall|i: int, j: int| 0 <= i < j < s.len() ==> s[i] < s[j]
}

/// Two index lists hold the same indices.
pub open spec fn same_members(a: Seq<u64>, b: Seq<u64>) -> bool {
    forall|x: u64| a.contains(x) <==> b.contains(x)
}

/// A prefix of a concatenation is the concatenation of a prefix.
proof fn lemma_concat_prefix(ss: Seq<Seq<u64>>, k: int)
    requires
        0 <= k <= ss.len(),
    ensures
        concat(ss.subrange(0, k)).len() <= concat(ss).len(),
        concat(ss) .subrange(0, concat(ss.subrange(0, k)).len() as int) == concat(ss.subrange(0, k)),
    decreases ss.len() - k,
{
    if k == ss.len() {
        assert(ss.subrange(0, k) == ss);
    } else {
        lemma_concat_prefix(ss, k + 1);
        let p = ss.subrange(0, k + 1);
        assert(p.drop_last() == ss.subrange(0, k));
        assert(concat(p) == concat(ss.subrange(0, k)) + ss[k]);
    }
}

/// Inserts `x` into a strictly ascending list; false where it is present.
fn insert_sorted(v: &mut Vec<u64>, x: u64) -> (r: bool)
    requires
        strictly_sorted(old(v)@),
    ensures
        r == !old(v)@.contains(x),
        strictly_sorted(final(v)@),
        forall|y: u64| final(v)@.contains(y) <==> (old(v)@.contains(y) || y == x),
        final(v)@.len() == old(v)@.len() + (if r { 1int } else { 0int }),
{
    let mut i: usize = 0;
    while i < v.len() && v[i] < x
        invariant
            i <= v@.len(),
            strictly_sorted(v@),
            forall|k: int| 0 <= k < i ==> v@[k] < x,
        decreases v@.len() - i,
    {
        i = i + 1;
    }
    if i < v.len() && v[i] == x {
        return false;
    }
    proof {
        assert forall|k: int| i <= k < v@.len() implies v@[k] > x by {
            if k > i {
                assert(v@[i as int] < v@[k]);
            }
            assert(v@[i as int] > x);
        }
        assert(!v@.contains(x));
    }
    let ghost before = v@;
    v.insert(i, x);
    proof {
        assert forall|y: u64| v@.contains(y) <==> (before.contains(y) || y == x) by {
            if v@.contains(y) {
                let k = choose|k: int| 0 <= k < v@.len() && v@[k] == y;
                if k < i {
                    assert(before[k] == y);
                } else if k > i {
                    assert(before[k - 1] == y);
                }
            }
            if before.contains(y) {
                let k = choose|k: int| 0 <= k < before.len() && before[k] == y;
                if k < i {
                    assert(v@[k] == y);
                } else {
                    assert(v@[k + 1] == y);
                }
            }
            if y == x {
                assert(v@[i as int] == x);
            }
        }
    }
    true
}

impl<T> Qubit<T> {
    /// A fresh leaf node.
    fn new(id: u64, indices: Vec<u64>) -> (r: Qubit<T>)
        ensures
            r.id == id,
            r.indices@ == indices@,
            r.parent is None,
    {
        Qubit { indices, parent: None, id }
    }

    /// Merges registers into a new node whose indices are the sorted union of
    /// theirs, with `operator` attached. Fails with `IndexConflict` exactly
    /// when an index occurs twice among the inputs.
    pub fn merge_with_fn(id: u64, qubits: &Vec<Register>, operator: Option<QubitOp<T>>) -> (r:
        Result<Qubit<T>, CircuitError>)
        ensures
            qubits@.len() == 0 ==> r == Err::<Qubit<T>, _>(CircuitError::EmptyWidth),
            qubits@.len() > 0 && !concat(index_lists(qubits@)).no_duplicates() ==> r == Err::<
                Qubit<T>,
                _,
            >(CircuitError::IndexConflict),
            r is Ok <==> qubits@.len() > 0 && concat(index_lists(qubits@)).no_duplicates(),
            r is Ok ==> ({
                let q = r->Ok_0;
                &&& q.id == id
                &&& strictly_sorted(q.indices@)
                &&& same_members(q.indices@, concat(index_lists(qubits@)))
                &&& q.indices@.len() == concat(index_lists(qubits@)).len()
                &&& owned_by(q.parent, ids_of(qubits@), operator)
            }),
    {
        if qubits.len() == 0 {
            return Err(CircuitError::EmptyWidth);
        }
        let ghost ls = index_lists(qubits@);
        let mut all: Vec<u64> = Vec::new();
        let mut ids: Vec<u64> = Vec::new();
        let mut i: usize = 0;
        while i < qubits.len()
            invariant
                i <= qubits@.len(),
                ls == index_lists(qubits@),
                strictly_sorted(all@),
                same_members(all@, concat(ls.subrange(0, i as int))),
                concat(ls.subrange(0, i as int)).no_duplicates(),
                all@.len() == concat(ls.subrange(0, i as int)).len(),
                ids@ == ids_of(qubits@.subrange(0, i as int)),
            decreases qubits@.len() - i,
        {
            let q = &qubits[i];
            let ghost pre = concat(ls.subrange(0, i as int));
            let mut j: usize = 0;
            while j < q.indices.len()
                invariant
                    i < qubits@.len(),
                    *q == qubits@[i as int],
                    ls == index_lists(qubits@),
                    pre == concat(ls.subrange(0, i as int)),
                    j <= q.indices@.len(),
                    strictly_sorted(all@),
                    same_members(all@, pre + q.indices@.subrange(0, j as int)),
                    (pre + q.indices@.subrange(0, j as int)).no_duplicates(),
                    all@.len() == pre.len() + j,
                decreases q.indices@.len() - j,
            {
                let x = q.indices[j];
                let ghost cur = pre + q.indices@.subrange(0, j as int);
                let ghost nxt = pre + q.indices@.subrange(0, j + 1);
                assert(nxt == cur.push(x));
                if !insert_sorted(&mut all, x) {
                    proof {
                        let k = choose|k: int| 0 <= k < cur.len() && cur[k] == x;
                        assert(nxt[k] == nxt[cur.len() as int]);
                        let p1 = ls.subrange(0, i + 1);
                        assert(p1.drop_last() == ls.subrange(0, i as int));
                        assert(ls[i as int] == q.indices@);
                        assert(concat(p1) == pre + q.indices@);
                        assert(nxt == concat(p1).subrange(0, nxt.len() as int));
                        lemma_concat_prefix(ls, i + 1);
                        assert(ls.subrange(0, ls.len() as int) == ls);
                        let whole = concat(ls);
                        assert(whole[k] == nxt[k]);
                        assert(whole[cur.len() as int] == nxt[cur.len() as int]);
                    }
                    return Err(CircuitError::IndexConflict);
                }
                j = j + 1;
                proof {
                    assert(q.indices@.subrange(0, j as int) == q.indices@.subrange(0, j - 1).push(x));
                    assert(nxt == pre + q.indices@.subrange(0, j as int));
                    assert(nxt.no_duplicates());
                    assert forall|y: u64| nxt.contains(y) <==> (cur.contains(y) || y == x) by {
                        if nxt.contains(y) {
                            let k = choose|k: int| 0 <= k < nxt.len() && nxt[k] == y;
                            if k < cur.len() {
                                assert(cur[k] == y);
                            }
                        }
                        if cur.contains(y) {
                            let k = choose|k: int| 0 <= k < cur.len() && cur[k] == y;
                            assert(nxt[k] == y);
                        }
                        if y == x {
                            assert(nxt[cur.len() as int] == y);
                        }
                    }
                }
            }
            proof {
                let p1 = ls.subrange(0, i + 1);
                assert(p1.drop_last() == ls.subrange(0, i as int));
                assert(ls[i as int] == q.indices@);
                assert(q.indices@.subrange(0, q.indices@.len() as int) == q.indices@);
                assert(concat(p1) == pre + q.indices@);
            }
            ids.push(q.id);
            i = i + 1;
            proof {
                assert(qubits@.subrange(0, i as int) == qubits@.subrange(0, i - 1).push(qubits@[i - 1]));
                assert(ids@ == ids_of(qubits@.subrange(0, i as int)));
            }
        }
        proof {
            assert(ls.subrange(0, ls.len() as int) == ls);
            assert(qubits@.subrange(0, qubits@.len() as int) == qubits@);
        }
        Ok(Qubit { indices: all, parent: Some(Parent::Owned(ids, operator)), id })
    }

    /// Splits register `q` in two: the first part holds `selected_indices` in
    /// their given order, the second the remaining indices in their order in
    /// `q`. Both record `q` as their shared parent.
    pub fn split(ida: u64, idb: u64, q: &Register, selected_indices: Vec<u64>) -> (r: Result<
        (Qubit<T>, Qubit<T>),
        CircuitError,
    >)
        ensures
            r is Ok <==> valid_selection(q.indices@, selected_indices@) && without(
                q.indices@,
                selected_indices@,
            ).len() > 0,
            selected_indices@.len() == 0 ==> r == Err::<(Qubit<T>, Qubit<T>), _>(
                CircuitError::EmptyWidth,
            ),
            selected_indices@.len() > 0 && !valid_selection(q.indices@, selected_indices@) ==> r
                == Err::<(Qubit<T>, Qubit<T>), _>(CircuitError::IndexConflict),
            valid_selection(q.indices@, selected_indices@) && without(
                q.indices@,
                selected_indices@,
            ).len() == 0 ==> r == Err::<(Qubit<T>, Qubit<T>), _>(CircuitError::EmptyWidth),
            r is Ok ==> ({
                let (a, b) = r->Ok_0;
                &&& a.id == ida && b.id == idb
                &&& a.indices@ == selected_indices@
                &&& b.indices@ == without(q.indices@, selected_indices@)
                &&& shared_from(a.parent, q.id) && shared_from(b.parent, q.id)
            }),
    {
        if selected_indices.len() == 0 {
            return Err(CircuitError::EmptyWidth);
        }
        let mut i: usize = 0;
        while i < selected_indices.len()
            invariant
                i <= selected_indices@.len(),
                subset_of(selected_indices@.subrange(0, i as int), q.indices@),
                selected_indices@.subrange(0, i as int).no_duplicates(),
            decreases selected_indices@.len() - i,
        {
            let x = selected_indices[i];
            let ghost pre = selected_indices@.subrange(0, i as int);
            if !contains(&q.indices, x) {
                assert(!subset_of(selected_indices@, q.indices@));
                return Err(CircuitError::IndexConflict);
            }
            let mut k: usize = 0;
            while k < i
                invariant
                    i < selected_indices@.len(),
                    k <= i,
                    x == selected_indices@[i as int],
                    forall|m: int| 0 <= m < k ==> selected_indices@[m] != x,
                decreases i - k,
            {
                if selected_indices[k] == x {
                    assert(!selected_indices@.no_duplicates());
                    return Err(CircuitError::IndexConflict);
                }
                k = k + 1;
            }
            i = i + 1;
            assert(selected_indices@.subrange(0, i as int) == pre.push(x));
        }
        assert(selected_indices@.subrange(0, i as int) == selected_indices@);
        let mut remaining: Vec<u64> = Vec::new();
        let mut j: usize = 0;
        while j < q.indices.len()
            invariant
                j <= q.indices@.len(),
                remaining@ == without(q.indices@.subrange(0, j as int), selected_indices@),
            decreases q.indices@.len() - j,
        {
            let x = q.indices[j];
            proof {
                let s1 = q.indices@.subrange(0, j + 1);
                assert(s1.drop_last() == q.indices@.subrange(0, j as int));
                assert(s1.last() == x);
            }
            if !contains(&selected_indices, x) {
                remaining.push(x);
            }
            j = j + 1;
        }
        assert(q.indices@.subrange(0, q.indices@.len() as int) == q.indices@);
        if remaining.len() == 0 {
            return Err(CircuitError::EmptyWidth);
        }
        Ok(
            (
                Qubit { indices: selected_indices, parent: Some(Parent::Shared(q.id)), id: ida },
                Qubit { indices: remaining, parent: Some(Parent::Shared(q.id)), id: idb },
            ),
        )
    }
}

/// The entries of `s` that are not in `sel`, in their order.
pub open spec fn without(s: Seq<u64>, sel: Seq<u64>) -> Seq<u64>
    decreases s.len(),
{
    if s.len() == 0 {
        Seq::empty()
    } else if sel.contains(s.last()) {
        without(s.drop_last(), sel)
    } else {
        without(s.drop_last(), sel).push(s.last())
    }
}

/// Every entry of `a` is an entry of `b`.
pub open spec fn subset_of(a: Seq<u64>, b: Seq<u64>) -> bool {
    forall|i: int| 0 <= i < a.len() ==> b.contains(#[trigger] a[i])
}

/// The selection that `split` accepts: non-empty, without duplicates, a
/// subset of the register's indices.
pub open spec fn valid_selection(src: Seq<u64>, sel: Seq<u64>) -> bool {
    &&& sel.len() > 0
    &&& sel.no_duplicates()
    &&& subset_of(sel, src)
}

/// The parentage is `Shared` from this parent.
pub open spec fn shared_from<T>(p: Option<Parent<T>>, parent: u64) -> bool {
    match p {
        Some(Parent::Shared(id)) => id == parent,
        _ => false,
    }
}

/// Whether `x` occurs in `v`.
fn contains(v: &Vec<u64>, x: u64) -> (r: bool)
    ensures
        r == v@.contains(x),
{
    let mut i: usize = 0;
    while i < v.len()
        invariant
            i <= v@.len(),
            forall|k: int| 0 <= k < i ==> v@[k] != x,
        decreases v@.len() - i,
    {
        if v[i] == x {
            return true;
        }
        i = i + 1;
    }
    false
}

/// The registers are fresh nodes with consecutive ids from `op_node + 1`,
/// each split from the node `op_node`.
pub open spec fn issued_parts<T>(nodes: Seq<Qubit<T>>, regs: Seq<Register>, op_node: int) -> bool {
    forall|k: int|
        0 <= k < regs.len() ==> (#[trigger] regs[k]).id == op_node + 1 + k && shared_from(
            nodes[regs[k].id as int].parent,
            op_node as u64,
        )
}

/// The parentage is `Owned` by exactly these children with this op.
pub open spec fn owned_by<T>(p: Option<Parent<T>>, children: Seq<u64>, op: Option<QubitOp<T>>) -> bool {
    match p {
        Some(Parent::Owned(ch, o)) => ch@ == children && o == op,
        _ => false,
    }
}

/// Ids of a sequence of registers, in order.
pub open spec fn ids_of(qs: Seq<Register>) -> Seq<u64> {
    qs.map_values(|q: Register| q.id)
}

/// The index lists of the nodes with the given ids.
pub open spec fn child_lists<T>(nodes: Seq<Qubit<T>>, children: Seq<u64>) -> Seq<Seq<u64>> {
    children.map_values(|c: u64| nodes[c as int].indices@)
}

/// Node `id` is well formed within `nodes`, over physical indices below `n`:
/// its indices are distinct and allocated, its parents come earlier, an owned
/// node holds exactly the indices of its children (each once), and a shared
/// node holds a part of its parent's.
pub open spec fn node_ok<T>(nodes: Seq<Qubit<T>>, id: int, n: nat) -> bool {
    let q = nodes[id];
    &&& q.id == id
    &&& q.indices@.len() > 0
    &&& q.indices@.no_duplicates()
    &&& forall|k: int| 0 <= k < q.indices@.len() ==> (#[trigger] q.indices@[k]) < n
    &&& match q.parent {
        None => true,
        Some(Parent::Owned(ch, _)) => {
            &&& ch@.len() > 0
            &&& forall|k: int| 0 <= k < ch@.len() ==> (#[trigger] ch@[k]) < id
            &&& concat(child_lists(nodes, ch@)).no_duplicates()
            &&& same_members(q.indices@, concat(child_lists(nodes, ch@)))
            &&& q.indices@.len() == concat(child_lists(nodes, ch@)).len()
        },
        Some(Parent::Shared(p)) => p < id && subset_of(q.indices@, nodes[p as int].indices@),
    }
}

/// Every node of the graph is well formed; node `i` has id `i`.
pub open spec fn graph_wf<T>(nodes: Seq<Qubit<T>>, n: nat) -> bool {
    forall|id: int| 0 <= id < nodes.len() ==> #[trigger] node_ok(nodes, id, n)
}

/// Appending a well-formed node keeps the graph well formed, and allocating
/// more indices keeps every node within range.
proof fn lemma_push_node<T>(nodes: Seq<Qubit<T>>, x: Qubit<T>, n: nat, n2: nat)
    requires
        graph_wf(nodes, n),
        n <= n2,
        node_ok(nodes.push(x), nodes.len() as int, n2),
    ensures
        graph_wf(nodes.push(x), n2),
{
    let nn = nodes.push(x);
    assert forall|id: int| 0 <= id < nn.len() implies #[trigger] node_ok(nn, id, n2) by {
        if id < nodes.len() {
            assert(node_ok(nodes, id, n));
            assert(nn[id] == nodes[id]);
            match nodes[id].parent {
                Some(Parent::Owned(ch, _)) => {
                    assert(child_lists(nn, ch@) =~= child_lists(nodes, ch@));
                },
                _ => {},
            }
        }
    }
}

/// Copies an index list.
fn copy_indices(v: &Vec<u64>) -> (r: Vec<u64>)
    ensures
        r@ == v@,
{
    let mut r: Vec<u64> = Vec::new();
    let mut i: usize = 0;
    while i < v.len()
        invariant
            i <= v@.len(),
            r@ == v@.subrange(0, i as int),
        decreases v@.len() - i,
    {
        r.push(v[i]);
        i = i + 1;
    }
    assert(v@.subrange(0, v@.len() as int) == v@);
    r
}

/// Membership in a concatenation is membership in one of its parts.
pub proof fn lemma_concat_member(ss: Seq<Seq<u64>>, x: u64)
    ensures
        concat(ss).contains(x) <==> exists|k: int| 0 <= k < ss.len() && (#[trigger] ss[k]).contains(x),
    decreases ss.len(),
{
    if ss.len() > 0 {
        let init = ss.drop_last();
        lemma_concat_member(init, x);
        let c = concat(ss);
        assert(c == concat(init) + ss.last());
        if c.contains(x) {
            let j = choose|j: int| 0 <= j < c.len() && c[j] == x;
            if j < concat(init).len() {
                assert(concat(init)[j] == x);
                let k = choose|k: int| 0 <= k < init.len() && (#[trigger] init[k]).contains(x);
                assert(ss[k] == init[k]);
            } else {
                assert(ss.last()[j - concat(init).len()] == x);
                assert(ss[ss.len() - 1].contains(x));
            }
        }
        if exists|k: int| 0 <= k < ss.len() && (#[trigger] ss[k]).contains(x) {
            let k = choose|k: int| 0 <= k < ss.len() && (#[trigger] ss[k]).contains(x);
            if k < ss.len() - 1 {
                assert(init[k] == ss[k]);
                let j = choose|j: int| 0 <= j < concat(init).len() && concat(init)[j] == x;
                assert(c[j] == x);
            } else {
                let j = choose|j: int| 0 <= j < ss.last().len() && ss.last()[j] == x;
                assert(c[concat(init).len() + j] == x);
            }
        }
    }
}

/// Concatenating a list in front.
pub proof fn lemma_concat_front(a: Seq<u64>, ss: Seq<Seq<u64>>)
    ensures
        concat(seq![a] + ss) == a + concat(ss),
    decreases ss.len(),
{
    if ss.len() == 0 {
        assert(seq![a] + ss =~= seq![a]);
        assert(seq![a].drop_last() =~= Seq::<Seq<u64>>::empty());
        assert(a + Seq::<u64>::empty() == a);
        assert(Seq::<u64>::empty() + a =~= a);
        assert(seq![a].last() == a);
        assert(concat(seq![a]) == concat(seq![a].drop_last()) + a);
        assert(concat(Seq::<Seq<u64>>::empty()) == Seq::<u64>::empty());
    } else {
        lemma_concat_front(a, ss.drop_last());
        assert((seq![a] + ss).drop_last() =~= seq![a] + ss.drop_last());
        assert((seq![a] + ss).last() == ss.last());
        assert(concat(seq![a] + ss) == concat((seq![a] + ss).drop_last()) + (seq![a] + ss).last());
        assert(concat(ss) == concat(ss.drop_last()) + ss.last());
        assert(a + concat(ss.drop_last()) + ss.last() =~= a + (concat(ss.drop_last()) + ss.last()));
    }
}

/// A node merged from registers that the graph owns is well formed.
proof fn lemma_merged_node_ok<T>(nodes: Seq<Qubit<T>>, qs: Seq<Register>, node: Qubit<T>, n: nat)
    requires
        graph_wf(nodes, n),
        qs.len() > 0,
        forall|k: int|
            0 <= k < qs.len() ==> (#[trigger] qs[k]).id < nodes.len() && nodes[qs[k].id as int].indices@
                == qs[k].indices@,
        node.id == nodes.len(),
        strictly_sorted(node.indices@),
        same_members(node.indices@, concat(index_lists(qs))),
        node.indices@.len() == concat(index_lists(qs)).len(),
        concat(index_lists(qs)).no_duplicates(),
        owned_by(node.parent, ids_of(qs), node.parent->Some_0->Owned_1),
    ensures
        node_ok(nodes.push(node), nodes.len() as int, n),
{
    let nn = nodes.push(node);
    let ls = index_lists(qs);
    let ch = ids_of(qs);
    assert(child_lists(nn, ch) =~= ls) by {
        assert forall|k: int| 0 <= k < ls.len() implies child_lists(nn, ch)[k] == ls[k] by {
            assert(qs[k].id < nodes.len());
        }
    }
    let k0 = qs.len() - 1;
    assert(nodes[qs[k0].id as int].indices@.len() > 0) by {
        assert(node_ok(nodes, qs[k0].id as int, n));
    }
    assert(concat(ls) == concat(ls.drop_last()) + ls.last());
    assert forall|k: int| 0 <= k < node.indices@.len() implies (#[trigger] node.indices@[k]) < n by {
        let x = node.indices@[k];
        assert(node.indices@.contains(x));
        lemma_concat_member(ls, x);
        let m = choose|m: int| 0 <= m < ls.len() && (#[trigger] ls[m]).contains(x);
        assert(node_ok(nodes, qs[m].id as int, n));
        let j = choose|j: int| 0 <= j < ls[m].len() && ls[m][j] == x;
        assert(nodes[qs[m].id as int].indices@[j] == x);
    }
    assert forall|k: int| 0 <= k < ch.len() implies (#[trigger] ch[k]) < node.id by {
        assert(qs[k].id < nodes.len());
    }
}

/// The entries of `s` outside `sel` are exactly its members outside `sel`,
/// each once where `s` has no duplicates.
pub proof fn lemma_without(s: Seq<u64>, sel: Seq<u64>)
    ensures
        forall|x: u64| without(s, sel).contains(x) <==> (s.contains(x) && !sel.contains(x)),
        s.no_duplicates() ==> without(s, sel).no_duplicates(),
    decreases s.len(),
{
    if s.len() > 0 {
        let init = s.drop_last();
        lemma_without(init, sel);
        let w = without(init, sel);
        if sel.contains(s.last()) {
            assert(without(s, sel) == w);
        } else {
            assert(without(s, sel) == w.push(s.last()));
        }
        assert forall|x: u64| without(s, sel).contains(x) <==> (s.contains(x) && !sel.contains(x)) by {
            if without(s, sel).contains(x) {
                let j = choose|j: int| 0 <= j < without(s, sel).len() && without(s, sel)[j] == x;
                if j < w.len() {
                    assert(w[j] == x);
                    assert(w.contains(x));
                    assert(init.contains(x));
                    let i = choose|i: int| 0 <= i < init.len() && init[i] == x;
                    assert(s[i] == x);
                } else {
                    assert(s[s.len() - 1] == x);
                }
            }
            if s.contains(x) && !sel.contains(x) {
                let j = choose|j: int| 0 <= j < s.len() && s[j] == x;
                if j < s.len() - 1 {
                    assert(init[j] == x);
                    assert(init.contains(x));
                    assert(w.contains(x));
                    let i = choose|i: int| 0 <= i < w.len() && w[i] == x;
                    assert(without(s, sel)[i] == x);
                } else {
                    assert(without(s, sel).last() == x);
                }
            }
            if init.contains(x) {
                let j = choose|j: int| 0 <= j < init.len() && init[j] == x;
                assert(s[j] == x);
            }
        }
        if s.no_duplicates() {
            assert(init.no_duplicates());
            if !sel.contains(s.last()) {
                assert(!init.contains(s.last()));
            }
        }
    }
}

/// The op recorded at a node, if any.
pub open spec fn op_at<T>(node: Qubit<T>) -> Option<QubitOp<T>> {
    match node.parent {
        Some(Parent::Owned(_, op)) => op,
        _ => None,
    }
}

/// The children of an owned node.
pub open spec fn children_at<T>(node: Qubit<T>) -> Seq<u64> {
    match node.parent {
        Some(Parent::Owned(ch, _)) => ch@,
        _ => Seq::empty(),
    }
}

/// `op` is a matrix op on `idx` with entries `data`.
pub open spec fn is_matrix<T>(op: QubitOp<T>, idx: Seq<u64>, data: Seq<T>) -> bool {
    match op {
        QubitOp::MatrixOp(i, d) => i@ == idx && d@ == data,
        _ => false,
    }
}

/// `op` swaps the groups `a` and `b`.
pub open spec fn is_swap<T>(op: QubitOp<T>, a: Seq<u64>, b: Seq<u64>) -> bool {
    match op {
        QubitOp::SwapOp(x, y) => x@ == a && y@ == b,
        _ => false,
    }
}

/// `op` measures `idx` under handle `h`.
pub open spec fn is_measure<T>(op: QubitOp<T>, idx: Seq<u64>, h: u64) -> bool {
    match op {
        QubitOp::MeasureOp(i, m) => i@ == idx && m == h,
        _ => false,
    }
}

/// A builder which records unitary and non-unitary ops into a register graph.
pub struct OpBuilder<T> {
    qubit_index: u64,
    op_id: u64,
    nodes: Vec<Qubit<T>>,
    contexts: Vec<Register>,
    measure_id: u64,
}

impl<T> OpBuilder<T> {
    /// All nodes recorded so far; node `i` has id `i`.
    pub closed spec fn nodes(&self) -> Seq<Qubit<T>> {
        self.nodes@
    }

    /// The number of physical indices allocated so far.
    pub closed spec fn next_index(&self) -> nat {
        self.qubit_index as nat
    }

    /// The control registers in force, outermost first.
    pub closed spec fn contexts(&self) -> Seq<Register> {
        self.contexts@
    }

    /// Measurement handles issued so far.
    pub closed spec fn measurements(&self) -> nat {
        self.measure_id as nat
    }

    /// `q` is the live view of node `q.id` of this builder.
    pub open spec fn owns(&self, q: Register) -> bool {
        &&& q.id < self.nodes().len()
        &&& self.nodes()[q.id as int].indices@ == q.indices@
    }

    /// The builder's invariant.
    pub open spec fn wf(&self) -> bool {
        &&& self.inner_wf()
        &&& graph_wf(self.nodes(), self.next_index())
        &&& forall|k: int| 0 <= k < self.contexts().len() ==> self.owns(#[trigger] self.contexts()[k])
    }

    /// Bookkeeping of the counters.
    pub closed spec fn inner_wf(&self) -> bool {
        self.op_id == self.nodes@.len()
    }

    /// Registers that the builder owned before still have their nodes.
    pub open spec fn extends(&self, old: &Self) -> bool {
        &&& old.nodes().len() <= self.nodes().len()
        &&& forall|i: int| 0 <= i < old.nodes().len() ==> #[trigger] self.nodes()[i] == old.nodes()[i]
        &&& old.next_index() <= self.next_index()
    }

    pub fn new() -> (r: OpBuilder<T>)
        ensures
            r.wf(),
            r.nodes().len() == 0,
            r.next_index() == 0,
            r.contexts().len() == 0,
            r.measurements() == 0,
    {
        OpBuilder {
            qubit_index: 0,
            op_id: 0,
            nodes: Vec::new(),
            contexts: Vec::new(),
            measure_id: 0,
        }
    }

    /// Issues the next node id.
    fn get_op_id(&mut self) -> (r: u64)
        requires
            old(self).op_id < u64::MAX,
        ensures
            r == old(self).op_id,
            final(self).op_id == old(self).op_id + 1,
            final(self).nodes == old(self).nodes,
            final(self).contexts == old(self).contexts,
            final(self).qubit_index == old(self).qubit_index,
            final(self).measure_id == old(self).measure_id,
    {
        let tmp = self.op_id;
        self.op_id = self.op_id + 1;
        tmp
    }

    /// Appends a node whose id is the next one.
    fn push_node(&mut self, node: Qubit<T>)
        requires
            old(self).wf(),
            old(self).op_id < u64::MAX,
            node.id == old(self).nodes().len(),
            node_ok(old(self).nodes().push(node), old(self).nodes().len() as int, old(self).next_index()),
        ensures
            final(self).wf(),
            final(self).nodes() == old(self).nodes().push(node),
            final(self).next_index() == old(self).next_index(),
            final(self).contexts() == old(self).contexts(),
            final(self).measurements() == old(self).measurements(),
    {
        let ghost before = *self;
        proof {
            lemma_push_node(self.nodes@, node, self.next_index(), self.next_index());
        }
        let _ = self.get_op_id();
        self.nodes.push(node);
        proof {
            assert forall|k: int| 0 <= k < self.contexts().len() implies self.owns(#[trigger] self.contexts()[k]) by {
                assert(before.owns(before.contexts()[k]));
            }
        }
    }

    /// Allocates a register of `n` fresh indices, `next_index() .. next_index() + n`.
    pub fn register(&mut self, n: u64) -> (r: Result<Register, CircuitError>)
        requires
            old(self).wf(),
        ensures
            final(self).wf(),
            final(self).extends(old(self)),
            final(self).contexts() == old(self).contexts(),
            final(self).measurements() == old(self).measurements(),
            n == 0 ==> r == Err::<Register, _>(CircuitError::EmptyWidth),
            n > 0 && (old(self).next_index() + n > u64::MAX || old(self).nodes().len() >= u64::MAX) ==> r
                == Err::<Register, _>(CircuitError::BackendExhaustion),
            r is Err ==> *final(self) == *old(self),
            r is Ok <==> n > 0 && old(self).next_index() + n <= u64::MAX && old(self).nodes().len() < u64::MAX,
            r is Ok ==> ({
                let q = r->Ok_0;
                &&& final(self).owns(q)
                &&& q.id == old(self).nodes().len()
                &&& final(self).nodes().len() == old(self).nodes().len() + 1
                &&& final(self).nodes()[q.id as int].parent is None
                &&& final(self).next_index() == old(self).next_index() + n
                &&& q.indices@.len() == n
                &&& forall|k: int| 0 <= k < n ==> q.indices@[k] == old(self).next_index() + k
            }),
    {
        if n == 0 {
            return Err(CircuitError::EmptyWidth);
        }
        if n > u64::MAX - self.qubit_index || self.op_id == u64::MAX {
            return Err(CircuitError::BackendExhaustion);
        }
        let base_index = self.qubit_index;
        let mut indices: Vec<u64> = Vec::new();
        let mut i: u64 = 0;
        while i < n
            invariant
                i <= n,
                base_index + n <= u64::MAX,
                indices@.len() == i,
                forall|k: int| 0 <= k < i ==> indices@[k] == base_index + k,
            decreases n - i,
        {
            indices.push(base_index + i);
            i = i + 1;
        }
        let ghost before = *self;
        self.qubit_index = base_index + n;
        proof {
            assert forall|k: int| 0 <= k < self.contexts().len() implies self.owns(#[trigger] self.contexts()[k]) by {
                assert(before.owns(before.contexts()[k]));
            }
            assert forall|id: int| 0 <= id < self.nodes@.len() implies #[trigger] node_ok(self.nodes@, id, self.next_index()) by {
                assert(node_ok(before.nodes@, id, before.next_index()));
            }
        }
        let id = self.op_id;
        let out = copy_indices(&indices);
        let node = Qubit::new(id, indices);
        proof {
            let nn = self.nodes@.push(node);
            assert(nn[id as int] == node);
            assert(node.indices@.no_duplicates());
        }
        self.push_node(node);
        Ok(Register { indices: out, id })
    }

    /// Allocates a single-qubit register.
    pub fn qubit(&mut self) -> (r: Result<Register, CircuitError>)
        requires
            old(self).wf(),
        ensures
            final(self).wf(),
            final(self).extends(old(self)),
            final(self).contexts() == old(self).contexts(),
            final(self).measurements() == old(self).measurements(),
            r is Err ==> *final(self) == *old(self),
            r is Ok <==> old(self).next_index() < u64::MAX && old(self).nodes().len() < u64::MAX,
            r is Ok ==> ({
                let q = r->Ok_0;
                &&& final(self).owns(q)
                &&& q.indices@ == seq![old(self).next_index() as u64]
                &&& q.id == old(self).nodes().len()
                &&& final(self).nodes().len() == old(self).nodes().len() + 1
                &&& final(self).nodes()[q.id as int].parent is None
                &&& final(self).next_index() == old(self).next_index() + 1
            }),
    {
        let r = self.register(1);
        proof {
            if r is Ok {
                assert(r->Ok_0.indices@ =~= seq![old(self).next_index() as u64]);
            }
        }
        r
    }

    /// Nothing that the contracts speak of has changed.
    pub open spec fn unchanged(&self, old: &Self) -> bool {
        &&& self.nodes() == old.nodes()
        &&& self.next_index() == old.next_index()
        &&& self.contexts() == old.contexts()
        &&& self.measurements() == old.measurements()
    }

    /// Index lists of the registers in force as controls.
    pub open spec fn control_lists(&self) -> Seq<Seq<u64>> {
        index_lists(self.contexts())
    }

    /// The control registers keep their indices and stay owned.
    pub open spec fn same_controls(&self, old: &Self) -> bool {
        &&& self.contexts().len() == old.contexts().len()
        &&& self.control_lists() == old.control_lists()
    }

    /// Records one node that merges `parts` with `op` attached, then hands
    /// each part back as a fresh register over the same indices.
    fn apply_parts(&mut self, parts: &mut Vec<Register>, op: Option<QubitOp<T>>) -> (r: Result<
        (),
        CircuitError,
    >)
        requires
            old(self).wf(),
            old(parts)@.len() > 0,
            forall|k: int| 0 <= k < old(parts)@.len() ==> old(self).owns(#[trigger] old(parts)@[k]),
        ensures
            final(self).wf(),
            final(self).extends(old(self)),
            final(self).contexts() == old(self).contexts(),
            final(self).measurements() == old(self).measurements(),
            final(self).next_index() == old(self).next_index(),
            r is Ok <==> concat(index_lists(old(parts)@)).no_duplicates() && old(self).nodes().len()
                + old(parts)@.len() < u64::MAX,
            !concat(index_lists(old(parts)@)).no_duplicates() ==> r == Err::<(), _>(
                CircuitError::IndexConflict,
            ),
            concat(index_lists(old(parts)@)).no_duplicates() && old(self).nodes().len() + old(
                parts,
            )@.len() >= u64::MAX ==> r == Err::<(), _>(CircuitError::BackendExhaustion),
            r is Err ==> final(self).unchanged(old(self)) && final(parts)@ == old(parts)@,
            r is Ok ==> ({
                let node = final(self).nodes()[old(self).nodes().len() as int];
                &&& final(parts)@.len() == old(parts)@.len()
                &&& forall|k: int|
                    0 <= k < old(parts)@.len() ==> final(self).owns(#[trigger] final(parts)@[k])
                        && final(parts)@[k].indices@ == old(parts)@[k].indices@
                &&& op_at(node) == op
                &&& children_at(node) == ids_of(old(parts)@)
                &&& final(self).nodes().len() == old(self).nodes().len() + 1 + old(parts)@.len()
                &&& issued_parts(final(self).nodes(), final(parts)@, old(self).nodes().len() as int)
            }),
    {
        let node = match Qubit::merge_with_fn(self.op_id, parts, op) {
            Ok(node) => node,
            Err(e) => {
                return Err(e);
            },
        };
        if self.op_id >= u64::MAX - (parts.len() as u64) {
            return Err(CircuitError::BackendExhaustion);
        }
        let ghost old_self = *self;
        let ghost old_parts = parts@;
        let node_id = self.op_id;
        proof {
            lemma_merged_node_ok(self.nodes@, parts@, node, self.next_index());
        }
        self.push_node(node);
        let ghost ls = index_lists(old_parts);
        let mut k: usize = 0;
        while k < parts.len()
            invariant
                self.wf(),
                old_self.wf(),
                parts@.len() == old_parts.len(),
                old_parts.len() > 0,
                ls == index_lists(old_parts),
                self.extends(&old_self),
                self.nodes()[node_id as int] == node,
                node_id == old_self.nodes().len(),
                self.nodes().len() == node_id + 1 + k,
                node_id + old_parts.len() < u64::MAX,
                k <= parts@.len(),
                strictly_sorted(node.indices@),
                same_members(node.indices@, concat(ls)),
                forall|j: int| 0 <= j < old_parts.len() ==> old_self.owns(#[trigger] old_parts[j]),
                forall|j: int|
                    0 <= j < k ==> self.owns(#[trigger] parts@[j]) && parts@[j].indices@
                        == old_parts[j].indices@,
                forall|j: int| k <= j < parts@.len() ==> #[trigger] parts@[j] == old_parts[j],
                issued_parts(self.nodes(), parts@.subrange(0, k as int), node_id as int),
                self.contexts() == old_self.contexts(),
                self.measurements() == old_self.measurements(),
                self.next_index() == old_self.next_index(),
            decreases parts@.len() - k,
        {
            let idx = copy_indices(&parts[k].indices);
            let out = copy_indices(&idx);
            let nid = self.op_id;
            let part = Qubit { indices: idx, parent: Some(Parent::Shared(node_id)), id: nid };
            proof {
                let old_q = old_parts[k as int];
                assert(old_self.owns(old_q));
                assert(node_ok(old_self.nodes(), old_q.id as int, old_self.next_index()));
                assert(self.nodes()[old_q.id as int] == old_self.nodes()[old_q.id as int]);
                let nn = self.nodes().push(part);
                assert(nn[nid as int] == part);
                assert(nn[node_id as int] == node);
                assert forall|i: int| 0 <= i < idx@.len() implies nn[node_id as int].indices@.contains(#[trigger] idx@[i]) by {
                    lemma_concat_member(ls, idx@[i]);
                    assert(ls[k as int] == idx@);
                    assert(ls[k as int].contains(idx@[i]));
                }
                assert forall|i: int| 0 <= i < idx@.len() implies (#[trigger] idx@[i]) < self.next_index() by {
                    assert(old_self.nodes()[old_q.id as int].indices@[i] == idx@[i]);
                }
            }
            let ghost pre = parts@.subrange(0, k as int);
            self.push_node(part);
            parts.set(k, Register { indices: out, id: nid });
            k = k + 1;
            proof {
                let sub = parts@.subrange(0, k as int);
                assert forall|j: int| 0 <= j < sub.len() implies (#[trigger] sub[j]).id == node_id + 1 + j
                    && shared_from(self.nodes()[sub[j].id as int].parent, node_id) by {
                    if j < k - 1 {
                        assert(sub[j] == pre[j]);
                    }
                }
            }
        }
        assert(parts@.subrange(0, parts@.len() as int) == parts@);
        Ok(())
    }

    /// Wraps a base op in one control layer per register in force, outermost
    /// first.
    fn wrap_controls(&self, base: QubitOp<T>) -> (r: QubitOp<T>)
        requires
            !(base is ControlOp),
        ensures
            controls_of(r) == concat(self.control_lists()),
            base_of(r) == base,
            depth_of(r) == self.contexts().len(),
    {
        let ghost ls = self.control_lists();
        let mut op = base;
        let mut k: usize = self.contexts.len();
        assert(ls.subrange(k as int, ls.len() as int) =~= Seq::<Seq<u64>>::empty());
        assert(concat(Seq::<Seq<u64>>::empty()) == Seq::<u64>::empty());
        while k > 0
            invariant
                k <= self.contexts@.len(),
                ls == self.control_lists(),
                ls.len() == self.contexts@.len(),
                controls_of(op) == concat(ls.subrange(k as int, ls.len() as int)),
                base_of(op) == base,
                depth_of(op) == self.contexts@.len() - k,
            decreases k,
        {
            k = k - 1;
            let c = copy_indices(&self.contexts[k].indices);
            proof {
                lemma_concat_front(c@, ls.subrange(k + 1, ls.len() as int));
                assert(seq![c@] + ls.subrange(k + 1, ls.len() as int) =~= ls.subrange(k as int, ls.len() as int));
            }
            op = QubitOp::ControlOp(c, Box::new(op));
        }
        assert(ls.subrange(0, ls.len() as int) == ls);
        op
    }

    /// Records `m` (a `2^k x 2^k` matrix, row-major) on the `k` indices of
    /// `q`, wrapped in the controls in force. The controls and `q` together
    /// must not repeat an index.
    pub fn mat(&mut self, q: Register, m: Vec<T>) -> (r: Result<Register, CircuitError>)
        requires
            old(self).wf(),
            old(self).owns(q),
        ensures
            final(self).wf(),
            final(self).extends(old(self)),
            final(self).same_controls(old(self)),
            final(self).measurements() == old(self).measurements(),
            final(self).next_index() == old(self).next_index(),
            m@.len() != pow2(2 * q.indices@.len()) ==> r == Err::<Register, _>(CircuitError::ShapeMismatch),
            m@.len() == pow2(2 * q.indices@.len()) && !concat(old(self).control_lists().push(q.indices@)).no_duplicates()
                ==> r == Err::<Register, _>(CircuitError::IndexConflict),
            r is Ok <==> m@.len() == pow2(2 * q.indices@.len()) && concat(
                old(self).control_lists().push(q.indices@),
            ).no_duplicates() && old(self).nodes().len() + old(self).contexts().len() + 1 < u64::MAX,
            r is Err ==> final(self).unchanged(old(self)),
            r is Ok ==> ({
                let node = final(self).nodes()[old(self).nodes().len() as int];
                let q2 = r->Ok_0;
                &&& final(self).owns(q2)
                &&& q2.indices@ == q.indices@
                &&& children_at(node) == ids_of(old(self).contexts().push(q))
                &&& op_at(node) is Some
                &&& controls_of(op_at(node)->Some_0) == concat(old(self).control_lists())
                &&& is_matrix(base_of(op_at(node)->Some_0), q.indices@, m@)
                &&& final(self).nodes().len() == old(self).nodes().len() + old(self).contexts().len() + 2
                &&& q2.id == old(self).nodes().len() + old(self).contexts().len() + 1
                &&& shared_from(final(self).nodes()[q2.id as int].parent, old(self).nodes().len() as u64)
                &&& issued_parts(final(self).nodes(), final(self).contexts(), old(self).nodes().len() as int)
            }),
    {
        if !matrix_len_ok(q.indices.len(), m.len()) {
            return Err(CircuitError::ShapeMismatch);
        }
        let base = QubitOp::MatrixOp(copy_indices(&q.indices), m);
        let op = self.wrap_controls(base);
        let mut parts = self.take_contexts();
        let ghost p0 = parts@;
        parts.push(q);
        proof {
            assert(index_lists(parts@) =~= index_lists(p0).push(q.indices@));
            assert(parts@.drop_last() =~= p0);
        }
        self.run_on_controls(&mut parts, op)
    }

    /// Records a swap of the groups `qa` and `qb`, of equal width, wrapped
    /// in the controls in force. Hands back `(qa', qb')` over the same indices.
    pub fn swap(&mut self, qa: Register, qb: Register) -> (r: Result<(Register, Register), CircuitError>)
        requires
            old(self).wf(),
            old(self).owns(qa),
            old(self).owns(qb),
        ensures
            final(self).wf(),
            final(self).extends(old(self)),
            final(self).same_controls(old(self)),
            final(self).measurements() == old(self).measurements(),
            final(self).next_index() == old(self).next_index(),
            qa.indices@.len() != qb.indices@.len() ==> r == Err::<(Register, Register), _>(
                CircuitError::ShapeMismatch,
            ),
            qa.indices@.len() == qb.indices@.len() && !concat(
                old(self).control_lists().push(qa.indices@).push(qb.indices@),
            ).no_duplicates() ==> r == Err::<(Register, Register), _>(CircuitError::IndexConflict),
            r is Ok <==> qa.indices@.len() == qb.indices@.len() && concat(
                old(self).control_lists().push(qa.indices@).push(qb.indices@),
            ).no_duplicates() && old(self).nodes().len() + old(self).contexts().len() + 2 < u64::MAX,
            r is Err ==> final(self).unchanged(old(self)),
            r is Ok ==> ({
                let node = final(self).nodes()[old(self).nodes().len() as int];
                let (a2, b2) = r->Ok_0;
                &&& final(self).owns(a2) && final(self).owns(b2)
                &&& a2.indices@ == qa.indices@ && b2.indices@ == qb.indices@
                &&& children_at(node) == ids_of(old(self).contexts().push(qa).push(qb))
                &&& op_at(node) is Some
                &&& controls_of(op_at(node)->Some_0) == concat(old(self).control_lists())
                &&& is_swap(base_of(op_at(node)->Some_0), qa.indices@, qb.indices@)
                &&& final(self).nodes().len() == old(self).nodes().len() + old(self).contexts().len() + 3
                &&& a2.id == old(self).nodes().len() + old(self).contexts().len() + 1
                &&& b2.id == old(self).nodes().len() + old(self).contexts().len() + 2
                &&& shared_from(final(self).nodes()[a2.id as int].parent, old(self).nodes().len() as u64)
                &&& shared_from(final(self).nodes()[b2.id as int].parent, old(self).nodes().len() as u64)
                &&& issued_parts(final(self).nodes(), final(self).contexts(), old(self).nodes().len() as int)
            }),
    {
        if qa.indices.len() != qb.indices.len() {
            return Err(CircuitError::ShapeMismatch);
        }
        let base = QubitOp::SwapOp(copy_indices(&qa.indices), copy_indices(&qb.indices));
        let op = self.wrap_controls(base);
        let mut parts = self.take_contexts();
        let ghost p0 = parts@;
        parts.push(qa);
        parts.push(qb);
        let ghost all = parts@;
        let ghost old_self = *self;
        let res = self.apply_parts(&mut parts, Some(op));
        let b2 = parts.pop();
        let a2 = parts.pop();
        proof {
            assert(index_lists(all) =~= index_lists(p0).push(qa.indices@).push(qb.indices@));
            if res is Ok {
                assert(parts@.len() == p0.len());
                assert forall|k: int| 0 <= k < parts@.len() implies #[trigger] parts@[k].indices@ == p0[k].indices@ by {
                    assert(all[k] == p0[k]);
                }
                assert(index_lists(parts@) =~= index_lists(p0));
                let full = parts@.push(a2->Some_0).push(b2->Some_0);
                assert(full[full.len() - 1] == b2->Some_0);
                assert(full[full.len() - 2] == a2->Some_0);
                assert forall|j: int| 0 <= j < parts@.len() implies (#[trigger] parts@[j]).id == old(self).nodes().len() + 1 + j
                    && shared_from(self.nodes()[parts@[j].id as int].parent, old(self).nodes().len() as u64) by {
                    assert(parts@[j] == full[j]);
                }
            } else {
                assert(parts@ =~= p0);
            }
        }
        self.put_contexts(parts);
        match res {
            Err(e) => Err(e),
            Ok(()) => Ok((a2.unwrap(), b2.unwrap())),
        }
    }

    /// Moves the controls in force out of the builder.
    fn take_contexts(&mut self) -> (r: Vec<Register>)
        requires
            old(self).wf(),
        ensures
            final(self).wf(),
            r@ == old(self).contexts(),
            final(self).contexts().len() == 0,
            final(self).nodes() == old(self).nodes(),
            final(self).next_index() == old(self).next_index(),
            final(self).measurements() == old(self).measurements(),
            forall|k: int| 0 <= k < r@.len() ==> final(self).owns(#[trigger] r@[k]),
    {
        let mut r: Vec<Register> = Vec::new();
        std::mem::swap(&mut r, &mut self.contexts);
        proof {
            assert forall|k: int| 0 <= k < r@.len() implies self.owns(#[trigger] r@[k]) by {
                assert(old(self).owns(old(self).contexts()[k]));
            }
        }
        r
    }

    /// Puts registers back as the controls in force.
    fn put_contexts(&mut self, cs: Vec<Register>)
        requires
            old(self).inner_wf(),
            graph_wf(old(self).nodes(), old(self).next_index()),
            forall|k: int| 0 <= k < cs@.len() ==> old(self).owns(#[trigger] cs@[k]),
        ensures
            final(self).wf(),
            final(self).contexts() == cs@,
            final(self).nodes() == old(self).nodes(),
            final(self).next_index() == old(self).next_index(),
            final(self).measurements() == old(self).measurements(),
    {
        self.contexts = cs;
    }

    /// Records a merge of `parts` (the controls in force followed by one
    /// operand register) with `op`, and hands the operand back.
    fn run_on_controls(&mut self, parts: &mut Vec<Register>, op: QubitOp<T>) -> (r: Result<
        Register,
        CircuitError,
    >)
        requires
            old(self).wf(),
            old(self).contexts().len() == 0,
            old(parts)@.len() > 0,
            forall|k: int| 0 <= k < old(parts)@.len() ==> old(self).owns(#[trigger] old(parts)@[k]),
        ensures
            final(self).wf(),
            final(self).extends(old(self)),
            final(self).measurements() == old(self).measurements(),
            final(self).next_index() == old(self).next_index(),
            final(self).contexts().len() == old(parts)@.len() - 1,
            index_lists(final(self).contexts()) == index_lists(old(parts)@.drop_last()),
            r is Ok <==> concat(index_lists(old(parts)@)).no_duplicates() && old(self).nodes().len()
                + old(parts)@.len() < u64::MAX,
            !concat(index_lists(old(parts)@)).no_duplicates() ==> r == Err::<Register, _>(
                CircuitError::IndexConflict,
            ),
            r is Err ==> final(self).nodes() == old(self).nodes() && final(self).contexts()
                == old(parts)@.drop_last(),
            r is Ok ==> ({
                let node = final(self).nodes()[old(self).nodes().len() as int];
                let q2 = r->Ok_0;
                &&& final(self).owns(q2)
                &&& q2.indices@ == old(parts)@.last().indices@
                &&& children_at(node) == ids_of(old(parts)@)
                &&& op_at(node) == Some(op)
                &&& final(self).nodes().len() == old(self).nodes().len() + 1 + old(parts)@.len()
                &&& q2.id == old(self).nodes().len() + old(parts)@.len()
                &&& shared_from(final(self).nodes()[q2.id as int].parent, old(self).nodes().len() as u64)
                &&& issued_parts(final(self).nodes(), final(self).contexts(), old(self).nodes().len() as int)
            }),
    {
        let ghost all = parts@;
        let res = self.apply_parts(parts, Some(op));
        let q2 = parts.pop();
        proof {
            if res is Ok {
                assert forall|k: int| 0 <= k < parts@.len() implies #[trigger] parts@[k].indices@ == all[k].indices@ by {
                }
                assert(index_lists(parts@) =~= index_lists(all.drop_last()));
                let full = parts@.push(q2->Some_0);
                assert(full[full.len() - 1] == q2->Some_0);
                assert forall|j: int| 0 <= j < parts@.len() implies (#[trigger] parts@[j]).id == old(self).nodes().len() + 1 + j
                    && shared_from(self.nodes()[parts@[j].id as int].parent, old(self).nodes().len() as u64) by {
                    assert(parts@[j] == full[j]);
                }
            } else {
                assert(parts@ =~= all.drop_last());
            }
        }
        let mut rest: Vec<Register> = Vec::new();
        std::mem::swap(&mut rest, parts);
        self.put_contexts(rest);
        match res {
            Err(e) => Err(e),
            Ok(()) => Ok(q2.unwrap()),
        }
    }

    /// Merges registers into one whose indices are their sorted union. No op
    /// is attached. Fails on an empty list or a repeated index.
    pub fn merge(&mut self, qs: Vec<Register>) -> (r: Result<Register, CircuitError>)
        requires
            old(self).wf(),
            forall|k: int| 0 <= k < qs@.len() ==> old(self).owns(#[trigger] qs@[k]),
        ensures
            final(self).wf(),
            final(self).extends(old(self)),
            final(self).contexts() == old(self).contexts(),
            final(self).measurements() == old(self).measurements(),
            final(self).next_index() == old(self).next_index(),
            qs@.len() == 0 ==> r == Err::<Register, _>(CircuitError::EmptyWidth),
            qs@.len() > 0 && !concat(index_lists(qs@)).no_duplicates() ==> r == Err::<Register, _>(
                CircuitError::IndexConflict,
            ),
            r is Ok <==> qs@.len() > 0 && concat(index_lists(qs@)).no_duplicates() && old(self).nodes().len() + 1 < u64::MAX,
            r is Err ==> final(self).unchanged(old(self)),
            r is Ok ==> ({
                let q = r->Ok_0;
                let node = final(self).nodes()[q.id as int];
                &&& final(self).owns(q)
                &&& q.id == old(self).nodes().len()
                &&& strictly_sorted(q.indices@)
                &&& same_members(q.indices@, concat(index_lists(qs@)))
                &&& q.indices@.len() == concat(index_lists(qs@)).len()
                &&& children_at(node) == ids_of(qs@)
                &&& op_at(node) is None
                &&& node.parent is Some
                &&& final(self).nodes().len() == old(self).nodes().len() + 1
            }),
    {
        if qs.len() == 0 {
            return Err(CircuitError::EmptyWidth);
        }
        let node = match Qubit::merge_with_fn(self.op_id, &qs, None) {
            Ok(node) => node,
            Err(e) => {
                return Err(e);
            },
        };
        if self.op_id >= u64::MAX - 1 {
            return Err(CircuitError::BackendExhaustion);
        }
        proof {
            lemma_merged_node_ok(self.nodes@, qs@, node, self.next_index());
        }
        let id = node.id;
        let out = copy_indices(&node.indices);
        self.push_node(node);
        Ok(Register { indices: out, id })
    }

    /// Splits `q` in two: the first part holds `selected_indices` in their
    /// given order, the second the remaining indices in their order in `q`.
    pub fn split(&mut self, q: Register, selected_indices: Vec<u64>) -> (r: Result<
        (Register, Register),
        CircuitError,
    >)
        requires
            old(self).wf(),
            old(self).owns(q),
        ensures
            final(self).wf(),
            final(self).extends(old(self)),
            final(self).contexts() == old(self).contexts(),
            final(self).measurements() == old(self).measurements(),
            final(self).next_index() == old(self).next_index(),
            selected_indices@.len() == 0 ==> r == Err::<(Register, Register), _>(CircuitError::EmptyWidth),
            selected_indices@.len() > 0 && !valid_selection(q.indices@, selected_indices@) ==> r
                == Err::<(Register, Register), _>(CircuitError::IndexConflict),
            valid_selection(q.indices@, selected_indices@) && without(q.indices@, selected_indices@).len()
                == 0 ==> r == Err::<(Register, Register), _>(CircuitError::EmptyWidth),
            r is Ok <==> valid_selection(q.indices@, selected_indices@) && without(
                q.indices@,
                selected_indices@,
            ).len() > 0 && old(self).nodes().len() + 2 < u64::MAX,
            r is Err ==> final(self).unchanged(old(self)),
            r is Ok ==> ({
                let (a, b) = r->Ok_0;
                &&& final(self).owns(a) && final(self).owns(b)
                &&& a.indices@ == selected_indices@
                &&& b.indices@ == without(q.indices@, selected_indices@)
                &&& shared_from(final(self).nodes()[a.id as int].parent, q.id)
                &&& shared_from(final(self).nodes()[b.id as int].parent, q.id)
                &&& a.id == old(self).nodes().len()
                &&& b.id == a.id + 1
                &&& final(self).nodes().len() == old(self).nodes().len() + 2
            }),
    {
        if self.op_id >= u64::MAX - 2 {
            let r = Qubit::<T>::split(0, 0, &q, selected_indices);
            return match r {
                Err(e) => Err(e),
                Ok(_) => Err(CircuitError::BackendExhaustion),
            };
        }
        let ida = self.op_id;
        let (a, b) = match Qubit::split(ida, ida + 1, &q, selected_indices) {
            Ok(p) => p,
            Err(e) => {
                return Err(e);
            },
        };
        proof {
            assert(node_ok(self.nodes@, q.id as int, self.next_index()));
            lemma_without(q.indices@, a.indices@);
            let nn = self.nodes@.push(a);
            assert(nn[ida as int] == a);
            assert forall|k: int| 0 <= k < a.indices@.len() implies (#[trigger] a.indices@[k]) < self.next_index() by {
                assert(q.indices@.contains(a.indices@[k]));
            }
        }
        let a_out = copy_indices(&a.indices);
        let b_out = copy_indices(&b.indices);
        self.push_node(a);
        proof {
            let nn = self.nodes@.push(b);
            assert(nn[ida + 1] == b);
            assert(nn[q.id as int] == old(self).nodes()[q.id as int]);
            assert forall|k: int| 0 <= k < b.indices@.len() implies (#[trigger] b.indices@[k]) < self.next_index() by {
                assert(without(q.indices@, a.indices@).contains(b.indices@[k]));
                assert(q.indices@.contains(b.indices@[k]));
                let j = choose|j: int| 0 <= j < q.indices@.len() && q.indices@[j] == b.indices@[k];
                assert(old(self).nodes()[q.id as int].indices@[j] < self.next_index());
            }
            assert(subset_of(b.indices@, nn[q.id as int].indices@)) by {
                assert forall|k: int| 0 <= k < b.indices@.len() implies nn[q.id as int].indices@.contains(#[trigger] b.indices@[k]) by {
                    assert(without(q.indices@, a.indices@).contains(b.indices@[k]));
                }
            }
        }
        self.push_node(b);
        Ok((Register { indices: a_out, id: ida }, Register { indices: b_out, id: ida + 1 }))
    }

    /// Records a measurement of `q` and issues its handle. Measurement is
    /// never controlled.
    pub fn measure(&mut self, q: Register) -> (r: Result<(Register, u64), CircuitError>)
        requires
            old(self).wf(),
            old(self).owns(q),
        ensures
            final(self).wf(),
            final(self).extends(old(self)),
            final(self).contexts() == old(self).contexts(),
            final(self).next_index() == old(self).next_index(),
            r is Ok <==> old(self).nodes().len() + 1 < u64::MAX && old(self).measurements() < u64::MAX,
            r is Err ==> final(self).unchanged(old(self)) && r == Err::<(Register, u64), _>(
                CircuitError::BackendExhaustion,
            ),
            r is Ok ==> ({
                let (q2, h) = r->Ok_0;
                let node = final(self).nodes()[old(self).nodes().len() as int];
                &&& final(self).owns(q2)
                &&& q2.indices@ == q.indices@
                &&& h == old(self).measurements()
                &&& final(self).measurements() == old(self).measurements() + 1
                &&& children_at(node) == seq![q.id]
                &&& op_at(node) is Some
                &&& is_measure(op_at(node)->Some_0, q.indices@, h)
                &&& final(self).nodes().len() == old(self).nodes().len() + 2
                &&& q2.id == old(self).nodes().len() + 1
                &&& shared_from(final(self).nodes()[q2.id as int].parent, old(self).nodes().len() as u64)
            }),
    {
        if self.measure_id == u64::MAX || self.op_id >= u64::MAX - 1 {
            return Err(CircuitError::BackendExhaustion);
        }
        let h = self.measure_id;
        let op = QubitOp::MeasureOp(copy_indices(&q.indices), h);
        let mut parts: Vec<Register> = Vec::new();
        parts.push(q);
        proof {
            let ls = index_lists(parts@);
            assert(ls.drop_last() =~= Seq::<Seq<u64>>::empty());
            assert(concat(Seq::<Seq<u64>>::empty()) == Seq::<u64>::empty());
            assert(concat(ls) =~= q.indices@);
            assert(node_ok(self.nodes@, q.id as int, self.next_index()));
            assert(ids_of(parts@) =~= seq![q.id]);
        }
        let res = self.apply_parts(&mut parts, Some(op));
        match res {
            Err(e) => Err(e),
            Ok(()) => {
                assert(parts@[0].id == old(self).nodes().len() + 1);
                let q2 = parts.pop().unwrap();
                self.measure_id = h + 1;
                Ok((q2, h))
            },
        }
    }

    /// Pushes `q` as a control: every op recorded until it is released is
    /// applied only where all of its indices are one.
    pub fn with_context(&mut self, q: Register)
        requires
            old(self).wf(),
            old(self).owns(q),
        ensures
            final(self).wf(),
            final(self).contexts() == old(self).contexts().push(q),
            final(self).nodes() == old(self).nodes(),
            final(self).next_index() == old(self).next_index(),
            final(self).measurements() == old(self).measurements(),
    {
        self.contexts.push(q);
        proof {
            assert forall|k: int| 0 <= k < self.contexts().len() implies self.owns(#[trigger] self.contexts()[k]) by {
                if k < old(self).contexts().len() {
                    assert(old(self).owns(old(self).contexts()[k]));
                }
            }
        }
    }

    /// Hands back the innermost control register, if any.
    pub fn release_context(&mut self) -> (r: Option<Register>)
        requires
            old(self).wf(),
        ensures
            final(self).wf(),
            old(self).contexts().len() == 0 ==> r is None && final(self).contexts() == old(self).contexts(),
            old(self).contexts().len() > 0 ==> r == Some(old(self).contexts().last())
                && final(self).contexts() == old(self).contexts().drop_last(),
            r is Some ==> final(self).owns(r->Some_0),
            final(self).nodes() == old(self).nodes(),
            final(self).next_index() == old(self).next_index(),
            final(self).measurements() == old(self).measurements(),
    {
        let r = self.contexts.pop();
        proof {
            if old(self).contexts().len() > 0 {
                assert(old(self).owns(old(self).contexts()[old(self).contexts().len() - 1]));
            }
            assert forall|k: int| 0 <= k < self.contexts().len() implies self.owns(#[trigger] self.contexts()[k]) by {
                assert(old(self).owns(old(self).contexts()[k]));
            }
        }
        r
    }

    /// The number of nodes recorded.
    pub fn node_count(&self) -> (r: usize)
        ensures
            r == self.nodes().len(),
    {
        self.nodes.len()
    }

    /// The node with id `id`.
    pub fn node(&self, id: usize) -> (r: &Qubit<T>)
        requires
            id < self.nodes().len(),
        ensures
            *r == self.nodes()[id as int],
    {
        &self.nodes[id]
    }

    /// Whether `q` is a live view of one of this builder's nodes.
    pub fn owns_register(&self, q: &Register) -> (r: bool)
        requires
            self.wf(),
        ensures
            r == self.owns(*q),
    {
        if q.id >= self.op_id {
            return false;
        }
        assert(self.op_id == self.nodes@.len());
        let _len = self.nodes.len();
        let i = q.id as usize;
        let node = &self.nodes[i];
        assert(node.indices@ == self.nodes()[q.id as int].indices@);
        if node.indices.len() != q.indices.len() {
            return false;
        }
        let mut k: usize = 0;
        while k < q.indices.len()
            invariant
                k <= q.indices@.len(),
                node.indices@.len() == q.indices@.len(),
                node.indices@ == self.nodes()[q.id as int].indices@,
                forall|m: int| 0 <= m < k ==> node.indices@[m] == q.indices@[m],
            decreases q.indices@.len() - k,
        {
            if node.indices[k] != q.indices[k] {
                return false;
            }
            k = k + 1;
        }
        assert(node.indices@ =~= q.indices@);
        true
    }

    /// SWAP of `qa` and `qb` controlled by `c` (and by the controls already
    /// in force). Hands back `(c', qa', qb')` over the same indices.
    pub fn cswap(&mut self, c: Register, qa: Register, qb: Register) -> (r: Result<
        (Register, Register, Register),
        CircuitError,
    >)
        requires
            old(self).wf(),
            old(self).owns(c),
            old(self).owns(qa),
            old(self).owns(qb),
        ensures
            final(self).wf(),
            final(self).extends(old(self)),
            final(self).same_controls(old(self)),
            final(self).measurements() == old(self).measurements(),
            final(self).next_index() == old(self).next_index(),
            qa.indices@.len() != qb.indices@.len() ==> r == Err::<(Register, Register, Register), _>(
                CircuitError::ShapeMismatch,
            ),
            qa.indices@.len() == qb.indices@.len() && !concat(
                old(self).control_lists().push(c.indices@).push(qa.indices@).push(qb.indices@),
            ).no_duplicates() ==> r == Err::<(Register, Register, Register), _>(
                CircuitError::IndexConflict,
            ),
            r is Ok <==> qa.indices@.len() == qb.indices@.len() && concat(
                old(self).control_lists().push(c.indices@).push(qa.indices@).push(qb.indices@),
            ).no_duplicates() && old(self).nodes().len() + old(self).contexts().len() + 3 < u64::MAX,
            r is Err ==> final(self).unchanged(old(self)),
            r is Ok ==> ({
                let node = final(self).nodes()[old(self).nodes().len() as int];
                let (c2, a2, b2) = r->Ok_0;
                let k = old(self).contexts().len();
                &&& final(self).owns(c2) && final(self).owns(a2) && final(self).owns(b2)
                &&& c2.indices@ == c.indices@
                &&& a2.indices@ == qa.indices@ && b2.indices@ == qb.indices@
                &&& op_at(node) is Some
                &&& controls_of(op_at(node)->Some_0) == concat(old(self).control_lists().push(c.indices@))
                &&& is_swap(base_of(op_at(node)->Some_0), qa.indices@, qb.indices@)
                &&& final(self).nodes().len() == old(self).nodes().len() + k + 4
                &&& c2.id == old(self).nodes().len() + k + 1
                &&& a2.id == old(self).nodes().len() + k + 2
                &&& b2.id == old(self).nodes().len() + k + 3
                &&& shared_from(final(self).nodes()[c2.id as int].parent, old(self).nodes().len() as u64)
                &&& shared_from(final(self).nodes()[a2.id as int].parent, old(self).nodes().len() as u64)
                &&& shared_from(final(self).nodes()[b2.id as int].parent, old(self).nodes().len() as u64)
                &&& issued_parts(final(self).nodes(), final(self).contexts(), old(self).nodes().len() as int)
            }),
    {
        let ghost c0 = self.contexts();
        self.with_context(c);
        proof {
            assert(self.control_lists() =~= index_lists(c0).push(c.indices@));
        }
        let ghost mid = self.contexts();
        let res = self.swap(qa, qb);
        let ghost after = self.contexts();
        let c2 = self.release_context();
        proof {
            if res is Err {
                assert(self.contexts() =~= c0);
            } else {
                let n0 = old(self).nodes().len() as int;
                assert(after[c0.len() as int] == c2->Some_0);
                assert(c2->Some_0.id == n0 + 1 + c0.len());
                assert forall|j: int| 0 <= j < self.contexts().len() implies (#[trigger] self.contexts()[j]).id == n0 + 1 + j
                    && shared_from(self.nodes()[self.contexts()[j].id as int].parent, n0 as u64) by {
                    assert(self.contexts()[j] == after[j]);
                }
            }
            let l = self.control_lists();
            assert(l =~= index_lists(c0)) by {
                assert forall|k: int| 0 <= k < l.len() implies l[k] == index_lists(c0)[k] by {
                    assert(self.contexts()[k].indices@ == index_lists(c0).push(c.indices@)[k]);
                }
            }
        }
        match res {
            Err(e) => Err(e),
            Ok((a2, b2)) => {
                let c2 = c2.unwrap();
                Ok((c2, a2, b2))
            },
        }
    }
}

/// Every register node of a builder holds exactly the indices of its owned
/// children, each once, or a part of the indices of its shared parent.
pub proof fn lemma_node_partition<T>(b: &OpBuilder<T>, id: int)
    requires
        b.wf(),
        0 <= id < b.nodes().len(),
    ensures
        ({
            let q = b.nodes()[id];
            &&& q.indices@.no_duplicates()
            &&& match q.parent {
                Some(Parent::Owned(ch, _)) => {
                    let all = concat(child_lists(b.nodes(), ch@));
                    &&& all.no_duplicates()
                    &&& same_members(q.indices@, all)
                    &&& q.indices@.len() == all.len()
                },
                Some(Parent::Shared(p)) => p < id && subset_of(q.indices@, b.nodes()[p as int].indices@),
                None => true,
            }
        }),
{
    assert(node_ok(b.nodes(), id, b.next_index()));
}

/// Dropping entries keeps a list strictly ascending.
proof fn lemma_without_sorted(s: Seq<u64>, sel: Seq<u64>)
    requires
        strictly_sorted(s),
    ensures
        strictly_sorted(without(s, sel)),
    decreases s.len(),
{
    if s.len() > 0 {
        let init = s.drop_last();
        lemma_without_sorted(init, sel);
        lemma_without(init, sel);
        let w = without(init, sel);
        if !sel.contains(s.last()) {
            let w2 = w.push(s.last());
            assert(without(s, sel) == w2);
            assert forall|i: int, j: int| 0 <= i < j < w2.len() implies w2[i] < w2[j] by {
                if j == w.len() {
                    assert(w.contains(w[i]));
                    assert(init.contains(w[i]));
                    let m = choose|m: int| 0 <= m < init.len() && init[m] == w[i];
                    assert(s[m] < s[s.len() - 1]);
                } else {
                    assert(w2[i] == w[i] && w2[j] == w[j]);
                }
            }
        }
    }
}

/// Two strictly ascending lists with the same members are equal.
proof fn lemma_sorted_unique(s: Seq<u64>, t: Seq<u64>)
    requires
        strictly_sorted(s),
        strictly_sorted(t),
        same_members(s, t),
    ensures
        s == t,
    decreases s.len(),
{
    if s.len() == 0 {
        if t.len() > 0 {
            assert(t.contains(t[0]));
        }
        assert(s =~= t);
    } else {
        assert(s.contains(s[0]));
        assert(t.len() > 0);
        assert(t.contains(t[0]));
        let i = choose|i: int| 0 <= i < s.len() && s[i] == t[0];
        let j = choose|j: int| 0 <= j < t.len() && t[j] == s[0];
        if i > 0 {
            assert(s[0] < s[i]);
        }
        if j > 0 {
            assert(t[0] < t[j]);
        }
        assert(s[0] == t[0]);
        let s1 = s.drop_first();
        let t1 = t.drop_first();
        assert forall|x: u64| s1.contains(x) <==> t1.contains(x) by {
            if s1.contains(x) {
                let k = choose|k: int| 0 <= k < s1.len() && s1[k] == x;
                assert(s[k + 1] == x && s[0] < s[k + 1]);
                assert(s.contains(x));
                let m = choose|m: int| 0 <= m < t.len() && t[m] == x;
                assert(m != 0);
                assert(t1[m - 1] == x);
            }
            if t1.contains(x) {
                let k = choose|k: int| 0 <= k < t1.len() && t1[k] == x;
                assert(t[k + 1] == x && t[0] < t[k + 1]);
                assert(t.contains(x));
                let m = choose|m: int| 0 <= m < s.len() && s[m] == x;
                assert(m != 0);
                assert(s1[m - 1] == x);
            }
        }
        lemma_sorted_unique(s1, t1);
        assert(s =~= t) by {
            assert forall|k: int| 0 <= k < s.len() implies s[k] == t[k] by {
                if k > 0 {
                    assert(s[k] == s1[k - 1] && t[k] == t1[k - 1]);
                }
            }
        }
    }
}

/// Merging two registers and splitting the result on the first one's
/// indices succeeds and gives back two registers over the same indices: the
/// first exactly, the second as the same members, and exactly where it was
/// ascending (as every register that the builder allocates or merges is).
pub proof fn lemma_merge_split_round_trip(a: Seq<u64>, b: Seq<u64>, m: Seq<u64>)
    requires
        a.len() > 0,
        b.len() > 0,
        (a + b).no_duplicates(),
        strictly_sorted(m),
        same_members(m, a + b),
    ensures
        valid_selection(m, a),
        without(m, a).len() > 0,
        same_members(without(m, a), b),
        strictly_sorted(b) ==> without(m, a) == b,
{
    lemma_without(m, a);
    assert forall|i: int| 0 <= i < a.len() implies m.contains(#[trigger] a[i]) by {
        assert((a + b)[i] == a[i]);
    }
    assert(a.no_duplicates()) by {
        assert forall|i: int, j: int| 0 <= i < a.len() && 0 <= j < a.len() && i != j implies a[i] != a[j] by {
            assert((a + b)[i] == a[i] && (a + b)[j] == a[j]);
        }
    }
    assert forall|x: u64| without(m, a).contains(x) <==> b.contains(x) by {
        if b.contains(x) {
            let j = choose|j: int| 0 <= j < b.len() && b[j] == x;
            assert((a + b)[a.len() + j] == x);
            if a.contains(x) {
                let i = choose|i: int| 0 <= i < a.len() && a[i] == x;
                assert((a + b)[i] == x);
            }
        }
        if m.contains(x) && !a.contains(x) {
            assert((a + b).contains(x));
            let j = choose|j: int| 0 <= j < (a + b).len() && (a + b)[j] == x;
            if j < a.len() {
                assert(a[j] == x);
            } else {
                assert(b[j - a.len()] == x);
            }
        }
    }
    assert(b.contains(b[0]));
    assert(without(m, a).contains(b[0]));
    if strictly_sorted(b) {
        lemma_without_sorted(m, a);
        lemma_sorted_unique(without(m, a), b);
    }
}

} // verus!
