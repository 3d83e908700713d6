//! The closed set of primitive operations and the algebra of control wrapping.
use vstd::prelude::*;

verus! {

/// `2^n`.
pub open spec fn pow2(n: nat) -> nat
    decreases n,
{
    if n == 0 {
        1
    } else {
        2 * pow2((n - 1) as nat)
    }
}

/// One recordable operation over physical qubit indices. `T` is the amplitude
/// type carried by matrices; the graph never computes with it.
pub enum QubitOp<T> {
    /// A `2^k x 2^k` matrix, row-major, on `k` indices.
    MatrixOp(Vec<u64>, Vec<T>),
    /// Exchange of two index groups of equal length.
    SwapOp(Vec<u64>, Vec<u64>),
    /// The inner op, applied only where every control index is set.
    ControlOp(Vec<u64>, Box<QubitOp<T>>),
    /// Measurement of the indices, reported under the given handle id.
    MeasureOp(Vec<u64>, u64),
}

/// Effective control indices: the concatenation of all nested control lists,
/// outermost first.
pub open spec fn controls_of<T>(op: QubitOp<T>) -> Seq<u64>
    decreases op,
{
    match op {
        QubitOp::ControlOp(c, inner) => c@ + controls_of(*inner),
        _ => Seq::empty(),
    }
}

/// The op under all control wrappers.
pub open spec fn base_of<T>(op: QubitOp<T>) -> QubitOp<T>
    decreases op,
{
    match op {
        QubitOp::ControlOp(_, inner) => base_of(*inner),
        _ => op,
    }
}

/// Number of control wrappers around the base op.
pub open spec fn depth_of<T>(op: QubitOp<T>) -> nat
    decreases op,
{
    match op {
        QubitOp::ControlOp(_, inner) => 1 + depth_of(*inner),
        _ => 0,
    }
}

/// A basis state (given as the set of its bits that are one) passes a control
/// list when every control index is one.
pub open spec fn fires(controls: Seq<u64>, ones: Set<u64>) -> bool {
    forall|i: int| 0 <= i < controls.len() ==> ones.contains(#[trigger] controls[i])
}

/// Splits an op into its effective control indices and its base op.
pub fn flatten_controls<T>(op: &QubitOp<T>) -> (r: (Vec<u64>, &QubitOp<T>))
    ensures
        r.0@ == controls_of(*op),
        *r.1 == base_of(*op),
        !(*r.1 is ControlOp),
    decreases op,
{
    match op {
        QubitOp::ControlOp(c, inner) => {
            let (rest, base) = flatten_controls(inner);
            let mut all: Vec<u64> = Vec::new();
            let mut i: usize = 0;
            while i < c.len()
                invariant
                    i <= c@.len(),
                    all@ == c@.subrange(0, i as int),
                decreases c@.len() - i,
            {
                all.push(c[i]);
                i = i + 1;
            }
            let mut j: usize = 0;
            while j < rest.len()
                invariant
                    j <= rest@.len(),
                    all@ == c@ + rest@.subrange(0, j as int),
                decreases rest@.len() - j,
            {
                all.push(rest[j]);
                j = j + 1;
                assert(all@ == c@ + rest@.subrange(0, j as int));
            }
            assert(rest@.subrange(0, rest@.len() as int) == rest@);
            assert(c@.subrange(0, c@.len() as int) == c@);
            (all, base)
        },
        _ => (Vec::new(), op),
    }
}

/// Whether `len == 2^(2k)`, the entry count of a matrix on `k` indices.
pub fn matrix_len_ok(k: usize, len: usize) -> (r: bool)
    ensures
        r == (len as nat == pow2(2 * k as nat)),
{
    let mut p: usize = 1;
    let mut i: usize = 0;
    assert(pow2(0) == 1);
    while i < k
        invariant
            i <= k,
            p as nat == pow2(2 * i as nat),
            p <= len || i == 0,
        decreases k - i,
    {
        if p > len / 4 {
            proof {
                lemma_pow2_grows((2 * i + 2) as nat, (2 * k) as nat);
                assert(pow2((2 * i + 2) as nat) == 2 * pow2((2 * i + 1) as nat));
                assert(pow2((2 * i + 1) as nat) == 2 * pow2((2 * i) as nat));
            }
            return false;
        }
        proof {
            assert(pow2((2 * i + 2) as nat) == 2 * pow2((2 * i + 1) as nat));
            assert(pow2((2 * i + 1) as nat) == 2 * pow2((2 * i) as nat));
        }
        p = p * 4;
        i = i + 1;
    }
    p == len
}

/// `2^n` is monotone.
pub proof fn lemma_pow2_grows(a: nat, b: nat)
    requires
        a <= b,
    ensures
        pow2(a) <= pow2(b),
    decreases b - a,
{
    if a < b {
        lemma_pow2_grows(a, (b - 1) as nat);
        assert(pow2(b) == 2 * pow2((b - 1) as nat));
    }
}

/// A control list made of two parts fires exactly when both parts fire.
pub proof fn lemma_fires_concat(a: Seq<u64>, b: Seq<u64>, ones: Set<u64>)
    ensures
        fires(a + b, ones) <==> fires(a, ones) && fires(b, ones),
{
    if fires(a + b, ones) {
        assert forall|i: int| 0 <= i < b.len() implies ones.contains(#[trigger] b[i]) by {
            assert((a + b)[a.len() + i] == b[i]);
        }
        assert forall|i: int| 0 <= i < a.len() implies ones.contains(#[trigger] a[i]) by {
            assert((a + b)[i] == a[i]);
        }
    }
    if fires(a, ones) && fires(b, ones) {
        assert forall|i: int| 0 <= i < (a + b).len() implies ones.contains(#[trigger] (a + b)[i]) by {
            if i < a.len() {
                assert((a + b)[i] == a[i]);
            } else {
                assert((a + b)[i] == b[i - a.len()]);
            }
        }
    }
}

/// Nested controls flatten: an op wrapped in three control layers fires
/// exactly when all three control lists are fully set, and its base op is the
/// innermost op.
pub proof fn lemma_nested_controls_flatten<T>(
    c1: Vec<u64>,
    c2: Vec<u64>,
    c3: Vec<u64>,
    base: QubitOp<T>,
    ones: Set<u64>,
)
    requires
        !(base is ControlOp),
    ensures
        ({
            let op = QubitOp::ControlOp(
                c1,
                Box::new(QubitOp::ControlOp(c2, Box::new(QubitOp::ControlOp(c3, Box::new(base))))),
            );
            &&& controls_of(op) == c1@ + (c2@ + c3@)
            &&& base_of(op) == base
            &&& depth_of(op) == 3
            &&& fires(controls_of(op), ones) <==> fires(c1@, ones) && fires(c2@, ones) && fires(
                c3@,
                ones,
            )
        }),
{
    let op3 = QubitOp::ControlOp(c3, Box::new(base));
    let op2 = QubitOp::ControlOp(c2, Box::new(op3));
    assert(controls_of(base) == Seq::<u64>::empty());
    assert(c3@ + Seq::<u64>::empty() == c3@);
    assert(controls_of(op3) == c3@);
    let op1 = QubitOp::ControlOp(c1, Box::new(op2));
    assert(base_of(base) == base);
    assert(base_of(op3) == base);
    assert(base_of(op2) == base);
    assert(base_of(op1) == base);
    assert(depth_of(base) == 0);
    assert(depth_of(op3) == 1);
    assert(depth_of(op2) == 2);
    assert(depth_of(op1) == 3);
    assert(controls_of(op2) == c2@ + c3@);
    assert(controls_of(op1) == c1@ + (c2@ + c3@));
    lemma_fires_concat(c2@, c3@, ones);
    lemma_fires_concat(c1@, c2@ + c3@, ones);
}

/// A non-empty control list on a basis state where all its indices are zero
/// does not fire: the controlled op is skipped.
pub proof fn lemma_zero_control_skips(controls: Seq<u64>, ones: Set<u64>)
    requires
        controls.len() > 0,
        forall|i: int| 0 <= i < controls.len() ==> !ones.contains(#[trigger] controls[i]),
    ensures
        !fires(controls, ones),
{
    assert(!ones.contains(controls[0]));
}

/// A control list on a basis state where all its indices are one fires: the
/// controlled op is applied as if uncontrolled.
pub proof fn lemma_one_control_applies(controls: Seq<u64>, ones: Set<u64>)
    requires
        forall|i: int| 0 <= i < controls.len() ==> ones.contains(#[trigger] controls[i]),
    ensures
        fires(controls, ones),
{
}

} // verus!
