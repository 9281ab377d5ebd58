use vstd::prelude::*;

verus! {

/// Upper bound on the costs fed to the one-dimensional transform.
pub open spec fn cost_bound() -> int {
    0x8_0000_0000_0000_0000
}

/// Parabola rooted at sample `i` with height `f[i]`, evaluated at `x`.
pub open spec fn parab(f: Seq<i128>, i: int, x: int) -> int {
    f[i] + (x - i) * (x - i)
}

/// `d` is the lower envelope of all parabolas of `f` at `x`: no parabola is
/// below it, and one of them touches it.
pub open spec fn is_envelope_value(f: Seq<i128>, x: int, d: int) -> bool {
    &&& forall|i: int| 0 <= i < f.len() ==> d <= #[trigger] parab(f, i, x)
    &&& exists|i: int| 0 <= i < f.len() && d == #[trigger] parab(f, i, x)
}

/// Numerator of the abscissa where parabola `q` starts to lie below parabola `r`.
pub open spec fn isect_num(f: Seq<i128>, q: int, r: int) -> int {
    (f[q] + q * q) - (f[r] + r * r)
}

/// Denominator of that abscissa.
pub open spec fn isect_den(q: int, r: int) -> int {
    2 * (q - r)
}

proof fn lemma_parab_diff(f: Seq<i128>, q: int, r: int, x: int)
    requires
        0 <= q < f.len(),
        0 <= r < f.len(),
    ensures
        parab(f, q, x) - parab(f, r, x) == isect_num(f, q, r) - x * isect_den(q, r),
{
    let fq = f[q] as int;
    let fr = f[r] as int;
    assert((fq + (x - q) * (x - q)) - (fr + (x - r) * (x - r)) == (fq + q * q) - (fr + r * r) - x * (
    2 * (q - r))) by (nonlinear_arith);
}

/// Rational `n1/d1 <= n2/d2` for positive denominators.
pub open spec fn rat_le(n1: int, d1: int, n2: int, d2: int) -> bool {
    n1 * d2 <= n2 * d1
}

pub open spec fn rat_lt(n1: int, d1: int, n2: int, d2: int) -> bool {
    n1 * d2 < n2 * d1
}

/// `x >= n/d`
pub open spec fn at_or_after(x: int, n: int, d: int) -> bool {
    x * d >= n
}

/// `x <= n/d`
pub open spec fn at_or_before(x: int, n: int, d: int) -> bool {
    x * d <= n
}

proof fn lemma_after_trans(x: int, n1: int, d1: int, n2: int, d2: int)
    requires
        d1 > 0,
        d2 > 0,
        rat_le(n1, d1, n2, d2),
        at_or_after(x, n2, d2),
    ensures
        at_or_after(x, n1, d1),
{
    assert(x * d2 * d1 >= n2 * d1) by (nonlinear_arith)
        requires
            x * d2 >= n2,
            d1 > 0,
    ;
    assert(x * d1 * d2 >= n1 * d2) by (nonlinear_arith)
        requires
            x * d2 * d1 >= n2 * d1,
            n1 * d2 <= n2 * d1,
    ;
    assert(x * d1 >= n1) by (nonlinear_arith)
        requires
            x * d1 * d2 >= n1 * d2,
            d2 > 0,
    ;
}

proof fn lemma_before_trans(x: int, n1: int, d1: int, n2: int, d2: int)
    requires
        d1 > 0,
        d2 > 0,
        rat_le(n1, d1, n2, d2),
        at_or_before(x, n1, d1),
    ensures
        at_or_before(x, n2, d2),
{
    assert(x * d1 * d2 <= n1 * d2) by (nonlinear_arith)
        requires
            x * d1 <= n1,
            d2 > 0,
    ;
    assert(x * d2 * d1 <= n2 * d1) by (nonlinear_arith)
        requires
            x * d1 * d2 <= n1 * d2,
            n1 * d2 <= n2 * d1,
    ;
    assert(x * d2 <= n2) by (nonlinear_arith)
        requires
            x * d2 * d1 <= n2 * d1,
            d1 > 0,
    ;
}

proof fn lemma_before_strict(x: int, n1: int, d1: int, n2: int, d2: int)
    requires
        d1 > 0,
        d2 > 0,
        rat_lt(n1, d1, n2, d2),
        at_or_before(x, n1, d1),
    ensures
        x * d2 < n2,
{
    assert(x * d1 * d2 <= n1 * d2) by (nonlinear_arith)
        requires
            x * d1 <= n1,
            d2 > 0,
    ;
    assert(x * d2 * d1 < n2 * d1) by (nonlinear_arith)
        requires
            x * d1 * d2 <= n1 * d2,
            n1 * d2 < n2 * d1,
    ;
    assert(x * d2 < n2) by (nonlinear_arith)
        requires
            x * d2 * d1 < n2 * d1,
            d1 > 0,
    ;
}

proof fn lemma_rat_le_lt(n1: int, d1: int, n2: int, d2: int, n3: int, d3: int)
    requires
        d1 > 0,
        d2 > 0,
        d3 > 0,
        rat_le(n1, d1, n2, d2),
        rat_lt(n2, d2, n3, d3),
    ensures
        rat_lt(n1, d1, n3, d3),
{
    assert(n1 * d2 * d3 <= n2 * d1 * d3) by (nonlinear_arith)
        requires
            n1 * d2 <= n2 * d1,
            d3 > 0,
    ;
    assert(n2 * d3 * d1 < n3 * d2 * d1) by (nonlinear_arith)
        requires
            n2 * d3 < n3 * d2,
            d1 > 0,
    ;
    assert(n1 * d3 * d2 < n3 * d1 * d2) by (nonlinear_arith)
        requires
            n1 * d2 * d3 <= n2 * d1 * d3,
            n2 * d3 * d1 < n3 * d2 * d1,
    ;
    assert(n1 * d3 < n3 * d1) by (nonlinear_arith)
        requires
            n1 * d3 * d2 < n3 * d1 * d2,
            d2 > 0,
    ;
}

proof fn lemma_rat_lt_le(n1: int, d1: int, n2: int, d2: int, n3: int, d3: int)
    requires
        d1 > 0,
        d2 > 0,
        d3 > 0,
        rat_lt(n1, d1, n2, d2),
        rat_le(n2, d2, n3, d3),
    ensures
        rat_lt(n1, d1, n3, d3),
{
    assert(n1 * d2 * d3 < n2 * d1 * d3) by (nonlinear_arith)
        requires
            n1 * d2 < n2 * d1,
            d3 > 0,
    ;
    assert(n2 * d3 * d1 <= n3 * d2 * d1) by (nonlinear_arith)
        requires
            n2 * d3 <= n3 * d2,
            d1 > 0,
    ;
    assert(n1 * d3 * d2 < n3 * d1 * d2) by (nonlinear_arith)
        requires
            n1 * d2 * d3 < n2 * d1 * d3,
            n2 * d3 * d1 <= n3 * d2 * d1,
    ;
    assert(n1 * d3 < n3 * d1) by (nonlinear_arith)
        requires
            n1 * d3 * d2 < n3 * d1 * d2,
            d2 > 0,
    ;
}

/// The abscissa where envelope entry `j` takes over from entry `j - 1`.
pub open spec fn zn(f: Seq<i128>, v: Seq<usize>, j: int) -> int {
    isect_num(f, v[j] as int, v[j - 1] as int)
}

pub open spec fn zd(v: Seq<usize>, j: int) -> int {
    isect_den(v[j] as int, v[j - 1] as int)
}

/// `x` lies in the stretch of envelope entry `j` (of entries `0..=k`).
pub open spec fn in_cell(f: Seq<i128>, v: Seq<usize>, k: int, j: int, x: int) -> bool {
    &&& 0 <= j <= k
    &&& (j == 0 || at_or_after(x, zn(f, v, j), zd(v, j)))
    &&& (j == k || at_or_before(x, zn(f, v, j + 1), zd(v, j + 1)))
}

/// Parabola `a` is lowest at `x` among parabolas `0..=q`.
pub open spec fn lowest_upto(f: Seq<i128>, a: int, x: int, q: int) -> bool {
    forall|i: int| 0 <= i <= q ==> parab(f, a, x) <= #[trigger] parab(f, i, x)
}

/// Entries `0..=k` of `v` describe the lower envelope of parabolas `0..=q`.
pub open spec fn envelope_inv(f: Seq<i128>, v: Seq<usize>, k: int, q: int) -> bool {
    &&& 0 <= k < v.len()
    &&& q < f.len()
    &&& v[k] == q
    &&& forall|j: int| 0 <= j <= k ==> j <= #[trigger] v[j] <= q
    &&& forall|j1: int, j2: int| 0 <= j1 < j2 <= k ==> v[j1] < v[j2]
    &&& forall|j1: int, j2: int|
        1 <= j1 < j2 <= k ==> #[trigger] rat_lt(zn(f, v, j1), zd(v, j1), zn(f, v, j2), zd(v, j2))
    &&& forall|j: int, x: int|
        #[trigger] in_cell(f, v, k, j, x) ==> lowest_upto(f, v[j] as int, x, q)
}

proof fn lemma_zd_pos(v: Seq<usize>, k: int, j: int)
    requires
        forall|j1: int, j2: int| 0 <= j1 < j2 <= k ==> v[j1] < v[j2],
        1 <= j <= k,
        k < v.len(),
    ensures
        zd(v, j) > 0,
{
    assert(v[j - 1] < v[j]);
}

/// Every abscissa at or after the start of entry `lo` lies in the stretch of
/// some entry at or after `lo`.
proof fn lemma_find_cell(f: Seq<i128>, v: Seq<usize>, k: int, q: int, lo: int, x: int) -> (j: int)
    requires
        envelope_inv(f, v, k, q),
        0 <= lo <= k,
        lo == 0 || at_or_after(x, zn(f, v, lo), zd(v, lo)),
    ensures
        lo <= j <= k,
        in_cell(f, v, k, j, x),
    decreases k - lo,
{
    if lo == k || at_or_before(x, zn(f, v, lo + 1), zd(v, lo + 1)) {
        lo
    } else {
        lemma_zd_pos(v, k, lo + 1);
        assert(at_or_after(x, zn(f, v, lo + 1), zd(v, lo + 1))) by (nonlinear_arith)
            requires
                !(x * zd(v, lo + 1) <= zn(f, v, lo + 1)),
        ;
        lemma_find_cell(f, v, k, q, lo + 1, x)
    }
}

} // verus!

verus! {

/// Growing the envelope of parabolas `0..q` by parabola `q`, after the
/// entries above `k` were dropped because `q` undercuts them from where they
/// started, gives the envelope of parabolas `0..=q`.
proof fn lemma_push(f: Seq<i128>, v: Seq<usize>, k_old: int, k: int, q: int)
    requires
        envelope_inv(f, v, k_old, q - 1),
        1 <= q < f.len(),
        q <= usize::MAX,
        0 <= k <= k_old,
        k + 1 < v.len(),
        forall|j: int|
            k < j <= k_old ==> #[trigger] rat_le(
                isect_num(f, q, v[j] as int),
                isect_den(q, v[j] as int),
                zn(f, v, j),
                zd(v, j),
            ),
        k == 0 || rat_lt(
            zn(f, v, k),
            zd(v, k),
            isect_num(f, q, v[k] as int),
            isect_den(q, v[k] as int),
        ),
    ensures
        envelope_inv(f, v.update(k + 1, q as usize), k + 1, q),
{
    let w = v.update(k + 1, q as usize);
    let vk = v[k] as int;
    let sn = isect_num(f, q, vk);
    let sd = isect_den(q, vk);
    assert(k <= vk <= q - 1);
    assert(sd > 0);
    assert forall|j: int| 0 <= j <= k implies w[j] == v[j] by {}
    assert forall|j: int| 1 <= j <= k implies zn(f, w, j) == zn(f, v, j) && zd(w, j) == zd(v, j) by {}
    assert(zn(f, w, k + 1) == sn && zd(w, k + 1) == sd);
    assert forall|j: int| 1 <= j <= k implies zd(v, j) > 0 by {
        lemma_zd_pos(v, k_old, j);
    }
    // ordering of the stretches
    assert forall|j: int| 0 <= j <= k + 1 implies j <= #[trigger] w[j] <= q by {}
    assert forall|j1: int, j2: int| 0 <= j1 < j2 <= k + 1 implies w[j1] < w[j2] by {}
    assert forall|j1: int, j2: int| 1 <= j1 < j2 <= k + 1 implies #[trigger] rat_lt(
        zn(f, w, j1),
        zd(w, j1),
        zn(f, w, j2),
        zd(w, j2),
    ) by {
        if j2 == k + 1 {
            if j1 < k {
                assert(rat_lt(zn(f, v, j1), zd(v, j1), zn(f, v, k), zd(v, k)));
                lemma_rat_lt_le(zn(f, v, j1), zd(v, j1), zn(f, v, k), zd(v, k), zn(f, v, k), zd(v, k));
                lemma_rat_le_lt(zn(f, v, j1), zd(v, j1), zn(f, v, k), zd(v, k), sn, sd);
            }
        } else {
            assert(rat_lt(zn(f, v, j1), zd(v, j1), zn(f, v, j2), zd(v, j2)));
        }
    }
    // the envelope property
    assert forall|j: int, x: int| #[trigger] in_cell(f, w, k + 1, j, x) implies lowest_upto(
        f,
        w[j] as int,
        x,
        q,
    ) by {
        if j == k + 1 {
            assert(at_or_after(x, sn, sd));
            let jj = lemma_find_cell(f, v, k_old, q - 1, 0, x);
            assert(lowest_upto(f, v[jj] as int, x, q - 1));
            if jj > k {
                lemma_zd_pos(v, k_old, jj);
                assert(v[jj] < q);
                assert(rat_le(isect_num(f, q, v[jj] as int), isect_den(q, v[jj] as int), zn(f, v, jj), zd(v, jj)));
                lemma_after_trans(x, isect_num(f, q, v[jj] as int), isect_den(q, v[jj] as int), zn(f, v, jj), zd(v, jj));
                lemma_parab_diff(f, q, v[jj] as int, x);
                assert forall|i: int| 0 <= i <= q implies parab(f, q, x) <= #[trigger] parab(f, i, x) by {
                    if i < q {
                        assert(parab(f, v[jj] as int, x) <= parab(f, i, x));
                    }
                }
            } else if jj < k {
                lemma_zd_pos(v, k_old, jj + 1);
                lemma_zd_pos(v, k_old, k);
                assert(at_or_before(x, zn(f, v, jj + 1), zd(v, jj + 1)));
                if jj + 1 < k {
                    assert(rat_lt(zn(f, v, jj + 1), zd(v, jj + 1), zn(f, v, k), zd(v, k)));
                    lemma_rat_lt_le(zn(f, v, jj + 1), zd(v, jj + 1), zn(f, v, k), zd(v, k), zn(f, v, k), zd(v, k));
                    lemma_rat_le_lt(zn(f, v, jj + 1), zd(v, jj + 1), zn(f, v, k), zd(v, k), sn, sd);
                }
                lemma_before_strict(x, zn(f, v, jj + 1), zd(v, jj + 1), sn, sd);
                assert(false);
            } else {
                lemma_parab_diff(f, q, vk, x);
                assert forall|i: int| 0 <= i <= q implies parab(f, q, x) <= #[trigger] parab(f, i, x) by {
                    if i < q {
                        assert(parab(f, vk, x) <= parab(f, i, x));
                    }
                }
            }
        } else if j == k {
            assert(at_or_before(x, sn, sd));
            lemma_parab_diff(f, q, vk, x);
            assert(parab(f, vk, x) <= parab(f, q, x));
            let jj = lemma_find_cell(f, v, k_old, q - 1, k, x);
            assert(lowest_upto(f, v[jj] as int, x, q - 1));
            if jj > k {
                lemma_zd_pos(v, k_old, jj);
                assert(v[jj] < q);
                assert(rat_le(isect_num(f, q, v[jj] as int), isect_den(q, v[jj] as int), zn(f, v, jj), zd(v, jj)));
                lemma_after_trans(x, isect_num(f, q, v[jj] as int), isect_den(q, v[jj] as int), zn(f, v, jj), zd(v, jj));
                lemma_parab_diff(f, q, v[jj] as int, x);
                assert forall|i: int| 0 <= i <= q implies parab(f, vk, x) <= #[trigger] parab(f, i, x) by {
                    if i < q {
                        assert(parab(f, v[jj] as int, x) <= parab(f, i, x));
                    }
                }
            } else {
                assert forall|i: int| 0 <= i <= q implies parab(f, vk, x) <= #[trigger] parab(f, i, x) by {
                    if i < q {
                        assert(parab(f, vk, x) <= parab(f, i, x));
                    }
                }
            }
        } else {
            assert(j < k);
            assert(in_cell(f, v, k_old, j, x));
            assert(lowest_upto(f, v[j] as int, x, q - 1));
            lemma_zd_pos(v, k_old, j + 1);
            lemma_zd_pos(v, k_old, k);
            assert(at_or_before(x, zn(f, v, j + 1), zd(v, j + 1)));
            if j + 1 < k {
                assert(rat_lt(zn(f, v, j + 1), zd(v, j + 1), zn(f, v, k), zd(v, k)));
                lemma_rat_lt_le(zn(f, v, j + 1), zd(v, j + 1), zn(f, v, k), zd(v, k), zn(f, v, k), zd(v, k));
                lemma_before_trans(x, zn(f, v, j + 1), zd(v, j + 1), zn(f, v, k), zd(v, k));
            }
            assert(at_or_before(x, zn(f, v, k), zd(v, k)));
            lemma_before_strict(x, zn(f, v, k), zd(v, k), sn, sd);
            lemma_parab_diff(f, q, vk, x);
            assert(parab(f, vk, x) <= parab(f, q, x));
            assert forall|i: int| 0 <= i <= q implies parab(f, v[j] as int, x) <= #[trigger] parab(f, i, x) by {
                if i == q {
                    assert(parab(f, v[j] as int, x) <= parab(f, vk, x));
                }
            }
        }
    }
}

} // verus!

verus! {

/// The stored takeover abscissas agree with entries `1..=k` of the envelope.
pub open spec fn mirrors(f: Seq<i128>, v: Seq<usize>, num: Seq<i128>, den: Seq<i128>, k: int) -> bool {
    forall|j: int| #![trigger num[j]] #![trigger den[j]]
        1 <= j <= k ==> num[j] == zn(f, v, j) && den[j] == zd(v, j)
}

fn filled_usize(n: usize) -> (v: Vec<usize>)
    ensures
        v.len() == n,
        forall|i: int| 0 <= i < n ==> v[i] == 0,
{
    let mut v: Vec<usize> = Vec::new();
    while v.len() < n
        invariant
            v.len() <= n,
            forall|i: int| 0 <= i < v.len() ==> v[i] == 0,
        decreases n - v.len(),
    {
        v.push(0);
    }
    v
}

fn filled_i128(n: usize) -> (v: Vec<i128>)
    ensures
        v.len() == n,
{
    let mut v: Vec<i128> = Vec::new();
    while v.len() < n
        invariant
            v.len() <= n,
        decreases n - v.len(),
    {
        v.push(0);
    }
    v
}

proof fn lemma_isect_bounds(f: Seq<i128>, q: int, r: int)
    requires
        0 <= r < q < f.len(),
        f.len() <= 0x1_0000_0000,
        forall|i: int| 0 <= i < f.len() ==> 0 <= #[trigger] f[i] <= cost_bound(),
    ensures
        -0x10_0000_0000_0000_0000 <= isect_num(f, q, r) <= 0x10_0000_0000_0000_0000,
        2 <= isect_den(q, r) <= 0x2_0000_0000,
{
    assert(0 <= q * q <= 0x1_0000_0000 * 0x1_0000_0000) by (nonlinear_arith)
        requires
            0 <= q <= 0x1_0000_0000,
    ;
    assert(0 <= r * r <= 0x1_0000_0000 * 0x1_0000_0000) by (nonlinear_arith)
        requires
            0 <= r <= 0x1_0000_0000,
    ;
    assert(0 <= f[q] <= cost_bound());
    assert(0 <= f[r] <= cost_bound());
}

proof fn lemma_square_bound(a: int)
    requires
        0 <= a <= 0x1_0000_0000,
    ensures
        0 <= a * a <= 0x1_0000_0000_0000_0000,
{
    assert(0 <= a * a <= 0x1_0000_0000 * 0x1_0000_0000) by (nonlinear_arith)
        requires
            0 <= a <= 0x1_0000_0000,
    ;
}

proof fn lemma_mul_small(x: int, d: int)
    requires
        0 <= x <= 0x1_0000_0000,
        0 <= d <= 0x2_0000_0000,
    ensures
        0 <= x * d <= 0x2_0000_0000 * 0x1_0000_0000,
{
    assert(0 <= x * d <= 0x2_0000_0000 * 0x1_0000_0000) by (nonlinear_arith)
        requires
            0 <= x <= 0x1_0000_0000,
            0 <= d <= 0x2_0000_0000,
    ;
}

proof fn lemma_product_bound(a: int, b: int)
    requires
        -0x10_0000_0000_0000_0000 <= a <= 0x10_0000_0000_0000_0000,
        0 <= b <= 0x2_0000_0000,
    ensures
        -0x20_0000_0000_0000_0000_0000_0000 <= a * b <= 0x20_0000_0000_0000_0000_0000_0000,
{
    assert(-0x10_0000_0000_0000_0000 * 0x2_0000_0000 <= a * b <= 0x10_0000_0000_0000_0000
        * 0x2_0000_0000) by (nonlinear_arith)
        requires
            -0x10_0000_0000_0000_0000 <= a <= 0x10_0000_0000_0000_0000,
            0 <= b <= 0x2_0000_0000,
    ;
}

/// The lower envelope of the parabolas `f[i] + (x - i)^2`, sampled at every
/// `x` in `0..f.len()`: the one-dimensional squared distance transform.
/// Parabolas are kept on a stack together with the abscissas where each one
/// takes over from the previous; a new parabola drops every parabola it
/// undercuts from that parabola's takeover point on.
pub fn lower_envelope(f: &Vec<i128>) -> (d: Vec<i128>)
    requires
        1 <= f.len() <= 0x1_0000_0000,
        forall|i: int| 0 <= i < f.len() ==> 0 <= #[trigger] f[i] <= cost_bound(),
    ensures
        d.len() == f.len(),
        forall|x: int| 0 <= x < f.len() ==> is_envelope_value(f@, x, #[trigger] d[x] as int),
{
    let n = f.len();
    let mut v = filled_usize(n);
    let mut z_num = filled_i128(n);
    let mut z_den = filled_i128(n);
    let mut k: usize = 0;
    assert(envelope_inv(f@, v@, 0, 0)) by {
        assert forall|j: int, x: int| #[trigger] in_cell(f@, v@, 0, j, x) implies lowest_upto(
            f@,
            v@[j] as int,
            x,
            0,
        ) by {}
    }
    let mut q: usize = 1;
    while q < n
        invariant
            1 <= q <= n,
            n == f.len(),
            n <= 0x1_0000_0000,
            forall|i: int| 0 <= i < f.len() ==> 0 <= #[trigger] f[i] <= cost_bound(),
            v.len() == n,
            z_num.len() == n,
            z_den.len() == n,
            envelope_inv(f@, v@, k as int, q - 1),
            mirrors(f@, v@, z_num@, z_den@, k as int),
        decreases n - q,
    {
        let ghost k_old = k as int;
        let qi = q as i128;
        proof {
            lemma_isect_bounds(f@, q as int, v@[k as int] as int);
            lemma_square_bound(q as int);
            lemma_square_bound(v@[k as int] as int);
        }
        let mut vk = v[k] as i128;
        let mut s_num: i128 = (f[q] + qi * qi) - (f[v[k]] + vk * vk);
        let mut s_den: i128 = 2 * (qi - vk);
        proof {
            if k > 0 {
                lemma_zd_pos(v@, k as int, k as int);
                lemma_isect_bounds(f@, v@[k as int] as int, v@[k - 1] as int);
                lemma_product_bound(s_num as int, z_den@[k as int] as int);
                lemma_product_bound(z_num@[k as int] as int, s_den as int);
            }
        }
        while k > 0 && s_num * z_den[k] <= z_num[k] * s_den
            invariant
                0 <= k <= k_old,
                1 <= q < n,
                n == f.len(),
                n <= 0x1_0000_0000,
                forall|i: int| 0 <= i < f.len() ==> 0 <= #[trigger] f[i] <= cost_bound(),
                v.len() == n,
                z_num.len() == n,
                z_den.len() == n,
                envelope_inv(f@, v@, k_old, q - 1),
                mirrors(f@, v@, z_num@, z_den@, k_old),
                vk == v@[k as int],
                qi == q as i128,
                s_num == isect_num(f@, q as int, v@[k as int] as int),
                s_den == isect_den(q as int, v@[k as int] as int),
                forall|j: int|
                    k < j <= k_old ==> #[trigger] rat_le(
                        isect_num(f@, q as int, v@[j] as int),
                        isect_den(q as int, v@[j] as int),
                        zn(f@, v@, j),
                        zd(v@, j),
                    ),
                k > 0 ==> -0x20_0000_0000_0000_0000_0000_0000 <= s_num * z_den@[k as int]
                    <= 0x20_0000_0000_0000_0000_0000_0000,
                k > 0 ==> -0x20_0000_0000_0000_0000_0000_0000 <= z_num@[k as int] * s_den
                    <= 0x20_0000_0000_0000_0000_0000_0000,
            decreases k,
        {
            k = k - 1;
            proof {
                lemma_isect_bounds(f@, q as int, v@[k as int] as int);
                lemma_square_bound(q as int);
                lemma_square_bound(v@[k as int] as int);
            }
            vk = v[k] as i128;
            s_num = (f[q] + qi * qi) - (f[v[k]] + vk * vk);
            s_den = 2 * (qi - vk);
            proof {
                if k > 0 {
                    lemma_zd_pos(v@, k_old, k as int);
                    lemma_isect_bounds(f@, v@[k as int] as int, v@[k - 1] as int);
                    lemma_product_bound(s_num as int, z_den@[k as int] as int);
                    lemma_product_bound(z_num@[k as int] as int, s_den as int);
                }
            }
        }
        proof {
            assert(k <= v@[k as int] <= q - 1);
            lemma_push(f@, v@, k_old, k as int, q as int);
        }
        let ghost v_before = v@;
        k = k + 1;
        v.set(k, q);
        z_num.set(k, s_num);
        z_den.set(k, s_den);
        proof {
            assert(v@ == v_before.update(k as int, q));
            assert forall|j: int| 1 <= j <= k implies #[trigger] z_num@[j] == zn(f@, v@, j) && z_den@[j] == zd(v@, j) by {
                if j < k {
                    assert(v@[j] == v_before[j] && v@[j - 1] == v_before[j - 1]);
                }
            }
        }
        q = q + 1;
    }
    let top = k;
    
    proof {
        assert forall|j: int| 1 <= j <= top implies 2 <= #[trigger] z_den@[j] <= 0x2_0000_0000 by {
            lemma_zd_pos(v@, top as int, j);
            lemma_isect_bounds(f@, v@[j] as int, v@[j - 1] as int);
        }
    }
    let mut d: Vec<i128> = Vec::new();
    let mut p: usize = 0;
    let mut x: usize = 0;
    while x < n
        invariant
            n == f.len(),
            n <= 0x1_0000_0000,
            forall|i: int| 0 <= i < f.len() ==> 0 <= #[trigger] f[i] <= cost_bound(),
            v.len() == n,
            z_num.len() == n,
            z_den.len() == n,
            envelope_inv(f@, v@, top as int, n - 1),
            mirrors(f@, v@, z_num@, z_den@, top as int),
            p <= top,
            x <= n,
            p == 0 || z_num@[p as int] < x * z_den@[p as int],
            forall|j: int| 1 <= j <= top ==> 2 <= #[trigger] z_den@[j] <= 0x2_0000_0000,
            d.len() == x,
            forall|xx: int| 0 <= xx < x ==> is_envelope_value(f@, xx, #[trigger] d[xx] as int),
        decreases n - x,
    {
        proof {
            if p < top {
                lemma_mul_small(x as int, z_den@[p + 1] as int);
            }
        }
        while p < top && z_num[p + 1] < (x as i128) * z_den[p + 1]
            invariant
                n == f.len(),
                n <= 0x1_0000_0000,
                x < n,
                forall|i: int| 0 <= i < f.len() ==> 0 <= #[trigger] f[i] <= cost_bound(),
                v.len() == n,
                z_num.len() == n,
                z_den.len() == n,
                envelope_inv(f@, v@, top as int, n - 1),
                mirrors(f@, v@, z_num@, z_den@, top as int),
                p <= top,
                p == 0 || z_num@[p as int] < x * z_den@[p as int],
                forall|j: int| 1 <= j <= top ==> 2 <= #[trigger] z_den@[j] <= 0x2_0000_0000,
                p < top ==> 0 <= x * z_den@[p + 1] <= 0x2_0000_0000 * 0x1_0000_0000,
            decreases top - p,
        {
            p = p + 1;
            proof {
                if p < top {
                    lemma_mul_small(x as int, z_den@[p + 1] as int);
                }
            }
        }
        proof {
            if p > 0 {
                lemma_zd_pos(v@, top as int, p as int);
            }
            assert(in_cell(f@, v@, top as int, p as int, x as int));
            assert(lowest_upto(f@, v@[p as int] as int, x as int, n - 1));
        }
        let vp = v[p];
        let diff = (x as i128) - (vp as i128);
        proof {
            assert(0 <= diff * diff <= 0x1_0000_0000 * 0x1_0000_0000) by (nonlinear_arith)
                requires
                    -0x1_0000_0000 <= diff <= 0x1_0000_0000,
            ;
        }
        let val = f[vp] + diff * diff;
        d.push(val);
        proof {
            assert(val == parab(f@, vp as int, x as int));
            assert forall|xx: int| 0 <= xx < x + 1 implies is_envelope_value(f@, xx, #[trigger] d[xx] as int) by {
                if xx == x {
                    assert(d[xx] == val);
                    assert(0 <= vp < n);
                }
            }
            if p > 0 {
                lemma_zd_pos(v@, top as int, p as int);
                assert(z_num@[p as int] < (x + 1) * z_den@[p as int]) by (nonlinear_arith)
                    requires
                        z_num@[p as int] < x * z_den@[p as int],
                        z_den@[p as int] > 0,
                ;
            }
        }
        x = x + 1;
    }
    d
}

} // verus!
