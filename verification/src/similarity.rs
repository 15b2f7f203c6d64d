//! Fixed-point vectors and their cosine similarity.
//!
//! An embedding component is an integer count of millionths, so a unit vector has
//! length [`UNIT`]; the similarity of two unit vectors is their dot product, in
//! millionths of millionths.

use vstd::prelude::*;

verus! {

/// One, as a vector component.
pub const UNIT: i32 = 1_000_000;

/// One, as a similarity.
pub const SIM_ONE: i128 = 1_000_000_000_000;

/// The dot product of the first `n` components.
pub open spec fn dot_upto(a: Seq<i32>, b: Seq<i32>, n: nat) -> int
    decreases n,
{
    if n == 0 {
        0
    } else {
        dot_upto(a, b, (n - 1) as nat) + a[n - 1] * b[n - 1]
    }
}

/// The dot product over the components both vectors have.
pub open spec fn dot(a: Seq<i32>, b: Seq<i32>) -> int {
    dot_upto(
        a,
        b,
        if a.len() <= b.len() {
            a.len()
        } else {
            b.len()
        },
    )
}

proof fn lemma_product_bound(x: i32, y: i32)
    ensures
        -0x4000_0000_0000_0000 <= x * y <= 0x4000_0000_0000_0000,
{
    assert(-0x4000_0000_0000_0000 <= x * y <= 0x4000_0000_0000_0000) by (nonlinear_arith)
        requires
            -0x8000_0000 <= x <= 0x7fff_ffff,
            -0x8000_0000 <= y <= 0x7fff_ffff,
    ;
}

/// Swapping the vectors does not change their dot product.
pub proof fn lemma_dot_symmetric(a: Seq<i32>, b: Seq<i32>)
    ensures
        dot(a, b) == dot(b, a),
{
    lemma_dot_upto_symmetric(
        a,
        b,
        if a.len() <= b.len() {
            a.len()
        } else {
            b.len()
        },
    );
}

proof fn lemma_dot_upto_symmetric(a: Seq<i32>, b: Seq<i32>, n: nat)
    ensures
        dot_upto(a, b, n) == dot_upto(b, a, n),
    decreases n,
{
    if n > 0 {
        lemma_dot_upto_symmetric(a, b, (n - 1) as nat);
        let (x, y) = (a[n - 1], b[n - 1]);
        assert(x * y == y * x) by (nonlinear_arith);
    }
}

proof fn lemma_dot_upto_bound(a: Seq<i32>, b: Seq<i32>, n: nat)
    ensures
        -(n as int) * 0x4000_0000_0000_0000 <= dot_upto(a, b, n) <= n * 0x4000_0000_0000_0000,
    decreases n,
{
    if n > 0 {
        lemma_dot_upto_bound(a, b, (n - 1) as nat);
        lemma_product_bound(a[n - 1], b[n - 1]);
    }
}

/// A dot product fits in an `i128`, however long the vectors.
pub proof fn lemma_dot_fits(a: Seq<i32>, b: Seq<i32>)
    requires
        a.len() <= usize::MAX,
    ensures
        i128::MIN <= dot(a, b) <= i128::MAX,
{
    lemma_dot_upto_bound(
        a,
        b,
        if a.len() <= b.len() {
            a.len()
        } else {
            b.len()
        },
    );
}

/// Cosine of two already-normalized vectors (a dot product).
pub fn cos(a: &[i32], b: &[i32]) -> (s: i128)
    ensures
        s == dot(a@, b@),
{
    let n: usize = if a.len() <= b.len() {
        a.len()
    } else {
        b.len()
    };
    let mut s: i128 = 0;
    for i in 0..n
        invariant
            n <= a.len(),
            n <= b.len(),
            n <= usize::MAX,
            s == dot_upto(a@, b@, i as nat),
            -(i as int) * 0x4000_0000_0000_0000 <= s <= i * 0x4000_0000_0000_0000,
    {
        proof {
            lemma_product_bound(a@[i as int], b@[i as int]);
        }
        s = s + (a[i] as i128) * (b[i] as i128);
    }
    s
}

/// `r` is the integer square root of `x`: the largest integer whose square is at most
/// `x`.
pub open spec fn is_root(x: int, r: int) -> bool {
    0 <= r && r * r <= x < (r + 1) * (r + 1)
}

/// The integer square root.
pub open spec fn root(x: int) -> int {
    choose|r: int| is_root(x, r)
}

/// There is only one integer square root.
pub proof fn lemma_root(x: int, r: int)
    requires
        is_root(x, r),
    ensures
        root(x) == r,
{
    let s = root(x);
    assert(is_root(x, s));
    if r < s {
        assert((r + 1) * (r + 1) <= s * s) by (nonlinear_arith)
            requires
                0 <= r,
                r + 1 <= s,
        ;
    } else if s < r {
        assert((s + 1) * (s + 1) <= r * r) by (nonlinear_arith)
            requires
                0 <= s,
                s + 1 <= r,
        ;
    }
}

/// The integer square root: the largest integer whose square is at most `x`.
pub fn isqrt(x: i128) -> (r: i128)
    requires
        0 <= x,
    ensures
        is_root(x as int, r as int),
        r == root(x as int),
{
    let mut lo: i128 = 0;
    let mut hi: i128 = 13_043_817_825_332_782_213;
    while hi - lo > 1
        invariant
            0 <= lo < hi <= 13_043_817_825_332_782_213,
            lo * lo <= x,
            x < hi * hi,
        decreases hi - lo,
    {
        let mid: i128 = lo + (hi - lo) / 2;
        assert(0 <= mid * mid <= 170_141_183_460_469_231_722_567_801_800_623_612_944) by (nonlinear_arith)
            requires
                0 <= mid <= 13_043_817_825_332_782_212,
        ;
        if mid * mid <= x {
            lo = mid;
        } else {
            hi = mid;
        }
    }
    proof {
        lemma_root(x as int, lo as int);
    }
    lo
}

/// `a / n`, rounded toward zero.
pub open spec fn toward_zero(a: int, n: int) -> int {
    if a >= 0 {
        a / n
    } else {
        -((-a) / n)
    }
}

/// The length of `v`: the integer square root of its dot product with itself, and at
/// least one.
pub open spec fn length(v: Seq<i32>) -> int {
    if dot(v, v) < 1 {
        1
    } else {
        root(dot(v, v))
    }
}

/// `v` scaled to length [`UNIT`].
pub open spec fn unit(v: Seq<i32>) -> Seq<i32> {
    Seq::new(v.len(), |k: int| toward_zero(v[k] * UNIT, length(v)) as i32)
}

proof fn lemma_dot_self(v: Seq<i32>, n: nat)
    requires
        n <= v.len(),
    ensures
        dot_upto(v, v, n) >= 0,
        forall|k: int| 0 <= k < n ==> #[trigger] (v[k] * v[k]) <= dot_upto(v, v, n),
    decreases n,
{
    if n > 0 {
        lemma_dot_self(v, (n - 1) as nat);
        let x = v[n - 1];
        assert(x * x >= 0) by (nonlinear_arith);
    }
}

/// No component is longer than the vector.
pub proof fn lemma_components(v: Seq<i32>, r: int)
    requires
        r >= 1,
        dot(v, v) < (r + 1) * (r + 1),
    ensures
        forall|k: int| 0 <= k < v.len() ==> -r <= #[trigger] v[k] <= r,
{
    lemma_dot_self(v, v.len());
    assert forall|k: int| 0 <= k < v.len() implies -r <= #[trigger] v[k] <= r by {
        let x = v[k] as int;
        assert(v[k] * v[k] <= dot(v, v));
        assert(-r <= x <= r) by (nonlinear_arith)
            requires
                x * x < (r + 1) * (r + 1),
                r >= 1,
        ;
    }
}

/// Scale a vector to unit length; the zero vector stays zero.
pub fn normalized(v: &[i32]) -> (u: Vec<i32>)
    ensures
        u@ == unit(v@),
{
    let square: i128 = cos(v, v);
    proof {
        lemma_dot_self(v@, v@.len());
    }
    let n: i128 = if square < 1 {
        1
    } else {
        isqrt(square)
    };
    proof {
        let r = n as int;
        if square < 1 {
            assert(dot(v@, v@) < (r + 1) * (r + 1)) by (nonlinear_arith)
                requires
                    dot(v@, v@) < 1,
                    r == 1,
            ;
        } else {
            assert(r >= 1) by (nonlinear_arith)
                requires
                    1 <= square,
                    square < (r + 1) * (r + 1),
                    r >= 0,
            ;
        }
        lemma_components(v@, r);
    }
    let mut u: Vec<i32> = Vec::with_capacity(v.len());
    for k in 0..v.len()
        invariant
            n >= 1,
            n == length(v@),
            forall|j: int| 0 <= j < v@.len() ==> -n <= #[trigger] v@[j] <= n,
            u@.len() == k,
            forall|j: int| 0 <= j < k ==> u@[j] == #[trigger] unit(v@)[j],
    {
        let x: i128 = v[k] as i128;
        proof {
            assert(-n <= v@[k as int] <= n);
            let m: int = if x >= 0 {
                x as int
            } else {
                -(x as int)
            };
            let nn = n as int;
            assert(0 <= (m * 1_000_000) / nn <= 1_000_000) by (nonlinear_arith)
                requires
                    0 <= m <= nn,
                    nn >= 1,
            ;
        }
        let y: i128 = if x >= 0 {
            x * 1_000_000 / n
        } else {
            -((-x) * 1_000_000 / n)
        };
        u.push(y as i32);
    }
    u
}

/// The vectors of a list, each by its view.
pub open spec fn rows(vs: Seq<Vec<i32>>) -> Seq<Seq<i32>> {
    vs.map_values(|v: Vec<i32>| v@)
}

/// A vector's length fits in a `usize`.
pub proof fn lemma_row_lengths(vs: Seq<Vec<i32>>)
    ensures
        forall|i: int| 0 <= i < vs.len() ==> (#[trigger] rows(vs)[i]).len() <= usize::MAX,
{
    assert forall|i: int| 0 <= i < vs.len() implies (#[trigger] rows(vs)[i]).len()
        <= usize::MAX by {
        assert(vs[i].len() <= usize::MAX);
    }
}

/// The sum of component `k` over the first `n` vectors; a vector too short to have
/// it contributes nothing.
pub open spec fn component_sum(vs: Seq<Seq<i32>>, k: int, n: nat) -> int
    decreases n,
{
    if n == 0 {
        0
    } else {
        component_sum(vs, k, (n - 1) as nat) + if k < vs[n - 1].len() {
            vs[n - 1][k] as int
        } else {
            0
        }
    }
}

/// The mean vector, as long as the first one.
pub open spec fn mean(vs: Seq<Seq<i32>>) -> Seq<i32> {
    Seq::new(
        vs[0].len(),
        |k: int| toward_zero(component_sum(vs, k, vs.len()), vs.len() as int) as i32,
    )
}

/// The unit vector along the mean; empty for no vectors.
pub open spec fn mean_unit(vs: Seq<Seq<i32>>) -> Seq<i32> {
    if vs.len() == 0 {
        Seq::empty()
    } else {
        unit(mean(vs))
    }
}

/// L2-normalized mean of a set of embeddings (empty for an empty set).
pub fn mean_normalized(embs: &Vec<Vec<i32>>) -> (u: Vec<i32>)
    ensures
        u@ == mean_unit(rows(embs@)),
{
    if embs.len() == 0 {
        return Vec::new();
    }
    let count: i128 = embs.len() as i128;
    let dim: usize = embs[0].len();
    let mut m: Vec<i32> = Vec::with_capacity(dim);
    for k in 0..dim
        invariant
            count == embs@.len(),
            count >= 1,
            dim == rows(embs@)[0].len(),
            m@.len() == k,
            forall|j: int| 0 <= j < k ==> m@[j] == #[trigger] mean(rows(embs@))[j],
    {
        let mut s: i128 = 0;
        for i in 0..embs.len()
            invariant
                s == component_sum(rows(embs@), k as int, i as nat),
                -(i as int) * 0x8000_0000 <= s <= i * 0x7fff_ffff,
        {
            assert(rows(embs@)[i as int] == embs@[i as int]@);
            if k < embs[i].len() {
                s = s + embs[i][k] as i128;
            }
        }
        proof {
            let (a, c) = (s as int, count as int);
            let b: int = if a >= 0 {
                a
            } else {
                -a
            };
            assert(0 <= b / c <= 0x8000_0000 && (a >= 0 ==> b / c <= 0x7fff_ffff)) by (nonlinear_arith)
                requires
                    c >= 1,
                    0 <= b <= c * 0x8000_0000,
                    a >= 0 ==> b <= c * 0x7fff_ffff,
            ;
        }
        let y: i128 = if s >= 0 {
            s / count
        } else {
            -((-s) / count)
        };
        m.push(y as i32);
    }
    assert(m@ =~= mean(rows(embs@)));
    normalized(m.as_slice())
}

/// Every vector of a list scaled to unit length.
pub open spec fn unit_rows(vs: Seq<Seq<i32>>) -> Seq<Seq<i32>> {
    vs.map_values(|v: Seq<i32>| unit(v))
}

} // verus!
