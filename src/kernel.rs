//! Index arithmetic of the state backends: which bits of a basis index a
//! register occupies, and how ops move basis indices.
use vstd::prelude::*;

verus! {

/// Bit `i` of basis index `x`.
pub open spec fn bit(x: u64, i: u64) -> bool {
    (x >> i) & 1u64 == 1u64
}

/// Every index in the list names a bit of a `u64` basis index.
pub open spec fn in_width(s: Seq<u64>) -> bool {
    forall|k: int| 0 <= k < s.len() ==> #[trigger] s[k] < 64
}

/// Setting or clearing one bit leaves the others alone.
proof fn lemma_set_bit(x: u64, i: u64, j: u64)
    by (bit_vector)
    requires
        i < 64,
        j < 64,
    ensures
        ((x | (1u64 << i)) >> j) & 1u64 == (if j == i { 1u64 } else { (x >> j) & 1u64 }),
        ((x & !(1u64 << i)) >> j) & 1u64 == (if j == i { 0u64 } else { (x >> j) & 1u64 }),
{
}

/// Whether bit `i` of `x` is one.
pub fn get_bit(x: u64, i: u64) -> (r: bool)
    requires
        i < 64,
    ensures
        r == bit(x, i),
{
    (x >> i) & 1u64 == 1u64
}

/// `x` with bit `i` set to `v`.
pub fn with_bit(x: u64, i: u64, v: bool) -> (r: u64)
    requires
        i < 64,
    ensures
        bit(r, i) == v,
        forall|j: u64| j < 64 && j != i ==> bit(r, j) == bit(x, j),
{
    let r = if v {
        x | (1u64 << i)
    } else {
        x & !(1u64 << i)
    };
    proof {
        lemma_set_bit(x, i, i);
        assert forall|j: u64| j < 64 && j != i implies bit(r, j) == bit(x, j) by {
            lemma_set_bit(x, i, j);
        }
    }
    r
}

/// Whether every control index is one in basis index `x`: the condition under
/// which a controlled op acts on `x`.
pub fn controls_fire(x: u64, controls: &Vec<u64>) -> (r: bool)
    requires
        in_width(controls@),
    ensures
        r == forall|k: int| 0 <= k < controls@.len() ==> bit(x, #[trigger] controls@[k]),
{
    let mut k: usize = 0;
    while k < controls.len()
        invariant
            k <= controls@.len(),
            in_width(controls@),
            forall|m: int| 0 <= m < k ==> bit(x, #[trigger] controls@[m]),
        decreases controls@.len() - k,
    {
        if !get_bit(x, controls[k]) {
            return false;
        }
        k = k + 1;
    }
    true
}

/// `y` is `x` with the bit groups `a` and `b` exchanged position by position.
pub open spec fn swapped(x: u64, y: u64, a: Seq<u64>, b: Seq<u64>) -> bool {
    &&& forall|k: int| 0 <= k < a.len() ==> bit(y, #[trigger] a[k]) == bit(x, b[k])
    &&& forall|k: int| 0 <= k < b.len() ==> bit(y, #[trigger] b[k]) == bit(x, a[k])
    &&& forall|j: u64| j < 64 && !a.contains(j) && !b.contains(j) ==> bit(y, j) == bit(x, j)
}

/// The basis index that a swap of the groups `a` and `b` sends `x` to.
pub fn swap_bits(x: u64, a: &Vec<u64>, b: &Vec<u64>) -> (r: u64)
    requires
        a@.len() == b@.len(),
        (a@ + b@).no_duplicates(),
        in_width(a@),
        in_width(b@),
    ensures
        swapped(x, r, a@, b@),
{
    let ghost ab = a@ + b@;
    let mut r = x;
    let mut k: usize = 0;
    while k < a.len()
        invariant
            k <= a@.len(),
            a@.len() == b@.len(),
            ab == a@ + b@,
            ab.no_duplicates(),
            in_width(a@),
            in_width(b@),
            forall|m: int| 0 <= m < k ==> bit(r, #[trigger] a@[m]) == bit(x, b@[m]),
            forall|m: int| 0 <= m < k ==> bit(r, #[trigger] b@[m]) == bit(x, a@[m]),
            forall|j: u64|
                j < 64 && !a@.subrange(0, k as int).contains(j) && !b@.subrange(0, k as int).contains(j)
                    ==> bit(r, j) == bit(x, j),
        decreases a@.len() - k,
    {
        let ia = a[k];
        let ib = b[k];
        let va = get_bit(x, ia);
        let vb = get_bit(x, ib);
        proof {
            assert(ab[k as int] == ia && ab[a@.len() + k] == ib);
            assert(ia != ib);
        }
        let r1 = with_bit(r, ia, vb);
        let r2 = with_bit(r1, ib, va);
        proof {
            assert forall|m: int| 0 <= m < k + 1 implies bit(r2, #[trigger] a@[m]) == bit(x, b@[m]) by {
                if m < k {
                    assert(ab[m] == a@[m]);
                    assert(a@[m] != ib) by {
                        assert(ab[a@.len() + k] == ib);
                    }
                    assert(a@[m] != ia);
                }
            }
            assert forall|m: int| 0 <= m < k + 1 implies bit(r2, #[trigger] b@[m]) == bit(x, a@[m]) by {
                if m < k {
                    assert(ab[a@.len() + m] == b@[m]);
                    assert(b@[m] != ia);
                    assert(b@[m] != ib);
                }
            }
            assert forall|j: u64|
                j < 64 && !a@.subrange(0, k + 1).contains(j) && !b@.subrange(0, k + 1).contains(j)
                    implies bit(r2, j) == bit(x, j) by {
                assert(a@.subrange(0, k + 1)[k as int] == ia);
                assert(b@.subrange(0, k + 1)[k as int] == ib);
                if a@.subrange(0, k as int).contains(j) {
                    let m = choose|m: int| 0 <= m < k && a@.subrange(0, k as int)[m] == j;
                    assert(a@.subrange(0, k + 1)[m] == j);
                }
                if b@.subrange(0, k as int).contains(j) {
                    let m = choose|m: int| 0 <= m < k && b@.subrange(0, k as int)[m] == j;
                    assert(b@.subrange(0, k + 1)[m] == j);
                }
            }
        }
        r = r2;
        k = k + 1;
    }
    proof {
        assert(a@.subrange(0, a@.len() as int) == a@);
        assert(b@.subrange(0, b@.len() as int) == b@);
    }
    r
}

/// A swap applied twice is the identity: every bit of the basis index comes
/// back to its place.
pub proof fn lemma_swap_twice(x: u64, y: u64, z: u64, a: Seq<u64>, b: Seq<u64>)
    requires
        a.len() == b.len(),
        in_width(a),
        in_width(b),
        swapped(x, y, a, b),
        swapped(y, z, a, b),
    ensures
        forall|j: u64| j < 64 ==> bit(z, j) == bit(x, j),
{
    assert forall|j: u64| j < 64 implies bit(z, j) == bit(x, j) by {
        if a.contains(j) {
            let k = choose|k: int| 0 <= k < a.len() && a[k] == j;
            assert(bit(z, a[k]) == bit(y, b[k]));
            assert(bit(y, b[k]) == bit(x, a[k]));
        } else if b.contains(j) {
            let k = choose|k: int| 0 <= k < b.len() && b[k] == j;
            assert(bit(z, b[k]) == bit(y, a[k]));
            assert(bit(y, a[k]) == bit(x, b[k]));
        }
    }
}

/// No bit of zero is set.
proof fn lemma_zero_bits(j: u64)
    by (bit_vector)
    requires
        j < 64,
    ensures
        (0u64 >> j) & 1u64 == 0u64,
{
}

/// `v` is the value that the register over `idx` holds in basis index `x`:
/// `idx[0]` is its most significant bit, and `v` has no bit above them.
pub open spec fn projects(x: u64, idx: Seq<u64>, v: u64) -> bool {
    &&& forall|k: int| 0 <= k < idx.len() ==> bit(v, (idx.len() - 1 - k) as u64) == bit(x, #[trigger] idx[k])
    &&& forall|j: u64| idx.len() <= j < 64 ==> !bit(v, j)
}

/// `y` is `x` with the register over `idx` set to value `v` and every other
/// bit kept.
pub open spec fn deposited(x: u64, idx: Seq<u64>, v: u64, y: u64) -> bool {
    &&& forall|k: int| 0 <= k < idx.len() ==> bit(y, #[trigger] idx[k]) == bit(v, (idx.len() - 1 - k) as u64)
    &&& forall|j: u64| j < 64 && !idx.contains(j) ==> bit(y, j) == bit(x, j)
}

/// The value of the register over `idx` in basis index `x`: the outcome that
/// a measurement of `idx` reports, and the row of a matrix on `idx`.
pub fn project(x: u64, idx: &Vec<u64>) -> (r: u64)
    requires
        in_width(idx@),
        idx@.len() <= 64,
    ensures
        projects(x, idx@, r),
{
    let n = idx.len();
    let mut r: u64 = 0;
    let mut k: usize = 0;
    proof {
        assert forall|j: u64| j < 64 implies !bit(r, j) by {
            lemma_zero_bits(j);
        }
    }
    while k < n
        invariant
            n == idx@.len(),
            n <= 64,
            k <= n,
            in_width(idx@),
            forall|m: int| 0 <= m < k ==> bit(r, (n - 1 - m) as u64) == bit(x, #[trigger] idx@[m]),
            forall|j: u64| j < 64 && (j + k < n || j >= n) ==> !bit(r, j),
        decreases n - k,
    {
        let pos = (n - 1 - k) as u64;
        let v = get_bit(x, idx[k]);
        let r2 = with_bit(r, pos, v);
        proof {
            assert forall|m: int| 0 <= m < k + 1 implies bit(r2, (n - 1 - m) as u64) == bit(x, #[trigger] idx@[m]) by {
                if m < k {
                    assert((n - 1 - m) as u64 != pos);
                }
            }
        }
        r = r2;
        k = k + 1;
    }
    r
}

/// `x` with the register over `idx` set to value `v`: the basis index where
/// an initial value is placed, and a column of a matrix on `idx`.
pub fn deposit(x: u64, idx: &Vec<u64>, v: u64) -> (r: u64)
    requires
        in_width(idx@),
        idx@.len() <= 64,
        idx@.no_duplicates(),
    ensures
        deposited(x, idx@, v, r),
{
    let n = idx.len();
    let mut r: u64 = x;
    let mut k: usize = 0;
    while k < n
        invariant
            n == idx@.len(),
            n <= 64,
            k <= n,
            in_width(idx@),
            idx@.no_duplicates(),
            forall|m: int| 0 <= m < k ==> bit(r, #[trigger] idx@[m]) == bit(v, (n - 1 - m) as u64),
            forall|j: u64| j < 64 && !idx@.subrange(0, k as int).contains(j) ==> bit(r, j) == bit(x, j),
        decreases n - k,
    {
        let pos = (n - 1 - k) as u64;
        let b = get_bit(v, pos);
        let i = idx[k];
        let r2 = with_bit(r, i, b);
        proof {
            assert forall|m: int| 0 <= m < k + 1 implies bit(r2, #[trigger] idx@[m]) == bit(v, (n - 1 - m) as u64) by {
                if m < k {
                    assert(idx@[m] != i);
                }
            }
            assert forall|j: u64| j < 64 && !idx@.subrange(0, k + 1).contains(j) implies bit(r2, j) == bit(x, j) by {
                assert(idx@.subrange(0, k + 1)[k as int] == i);
                if idx@.subrange(0, k as int).contains(j) {
                    let m = choose|m: int| 0 <= m < k && idx@.subrange(0, k as int)[m] == j;
                    assert(idx@.subrange(0, k + 1)[m] == j);
                }
            }
        }
        r = r2;
        k = k + 1;
    }
    assert(idx@.subrange(0, n as int) == idx@);
    r
}

/// Projecting after a deposit gives back the deposited value, on every bit
/// that the register holds.
pub proof fn lemma_deposit_project(x: u64, idx: Seq<u64>, v: u64, y: u64, w: u64)
    requires
        in_width(idx),
        idx.len() <= 64,
        deposited(x, idx, v, y),
        projects(y, idx, w),
    ensures
        forall|j: u64| j < idx.len() ==> #[trigger] bit(w, j) == bit(v, j),
{
    assert forall|j: u64| j < idx.len() implies #[trigger] bit(w, j) == bit(v, j) by {
        let k = idx.len() - 1 - j;
        assert((idx.len() - 1 - k) as u64 == j);
        assert(bit(w, j) == bit(y, idx[k]));
    }
}

} // verus!
