use vstd::prelude::*;

verus! {

/// Largest dimensionality an index accepts: it keeps every product that a
/// ranking comparison forms inside 128 bits.
pub const MAX_DIM: usize = 4096;

/// Sum of `a[i] * b[i]` over the first `n` coordinates.
pub open spec fn dot_to(a: Seq<i16>, b: Seq<i16>, n: nat) -> int
    decreases n,
{
    if n == 0 {
        0
    } else {
        dot_to(a, b, (n - 1) as nat) + (a[n - 1] as int) * (b[n - 1] as int)
    }
}

/// Inner product of two vectors of the same length.
pub open spec fn dot(a: Seq<i16>, b: Seq<i16>) -> int {
    dot_to(a, b, a.len())
}

/// Squared Euclidean norm.
pub open spec fn norm2(a: Seq<i16>) -> int {
    dot(a, a)
}

/// Sum of `w[i] * x[i]` over the first `n` coordinates, for a split normal `w`.
pub open spec fn wdot_to(w: Seq<i32>, x: Seq<i16>, n: nat) -> int
    decreases n,
{
    if n == 0 {
        0
    } else {
        wdot_to(w, x, (n - 1) as nat) + (w[n - 1] as int) * (x[n - 1] as int)
    }
}

/// Inner product of a split normal with a vector.
pub open spec fn wdot(w: Seq<i32>, x: Seq<i16>) -> int {
    wdot_to(w, x, w.len())
}

/// Bound on the magnitude of a normal's coordinates: a difference of two `i16`.
pub open spec fn normal_bounded(w: Seq<i32>) -> bool {
    forall|i: int| 0 <= i < w.len() ==> -65536 <= #[trigger] w[i] <= 65536
}

proof fn lemma_prod16(x: i16, y: i16)
    ensures
        -1073741824 <= (x as int) * (y as int) <= 1073741824,
{
    assert(-1073741824 <= (x as int) * (y as int) <= 1073741824) by (nonlinear_arith)
        requires
            -32768 <= x <= 32767,
            -32768 <= y <= 32767,
    ;
}

proof fn lemma_prod_w(x: i32, y: i16)
    requires
        -65536 <= x <= 65536,
    ensures
        -2147483648 <= (x as int) * (y as int) <= 2147483648,
{
    assert(-2147483648 <= (x as int) * (y as int) <= 2147483648) by (nonlinear_arith)
        requires
            -65536 <= x <= 65536,
            -32768 <= y <= 32767,
    ;
}

/// Every partial inner product of vectors of at most `MAX_DIM` coordinates
/// stays within `n * 2^30`.
pub proof fn lemma_dot_bound(a: Seq<i16>, b: Seq<i16>, n: nat)
    requires
        n <= a.len(),
        n <= b.len(),
    ensures
        -(n as int) * 1073741824 <= dot_to(a, b, n) <= (n as int) * 1073741824,
    decreases n,
{
    if n > 0 {
        lemma_dot_bound(a, b, (n - 1) as nat);
        lemma_prod16(a[n - 1], b[n - 1]);
    }
}

/// Every partial inner product of a bounded normal with a vector stays
/// within `n * 2^31`.
pub proof fn lemma_wdot_bound(w: Seq<i32>, x: Seq<i16>, n: nat)
    requires
        n <= w.len(),
        n <= x.len(),
        normal_bounded(w),
    ensures
        -(n as int) * 2147483648 <= wdot_to(w, x, n) <= (n as int) * 2147483648,
    decreases n,
{
    if n > 0 {
        lemma_wdot_bound(w, x, (n - 1) as nat);
        lemma_prod_w(w[n - 1], x[n - 1]);
    }
}

proof fn lemma_cs_step(s: int, aa: int, bb: int, x: int, y: int)
    requires
        aa >= 0,
        bb >= 0,
        s * s <= aa * bb,
    ensures
        (s + x * y) * (s + x * y) <= (aa + x * x) * (bb + y * y),
{
    let p = x * y;
    let xx = x * x;
    let yy = y * y;
    assert(xx >= 0 && yy >= 0 && p * p == xx * yy) by (nonlinear_arith)
        requires
            p == x * y,
            xx == x * x,
            yy == y * y,
    ;
    // 2 * s * p <= aa * yy + bb * xx
    if aa == 0 {
        assert(s == 0) by (nonlinear_arith)
            requires
                s * s <= aa * bb,
                aa == 0,
        ;
        assert(bb * xx >= 0) by (nonlinear_arith)
            requires
                bb >= 0,
                xx >= 0,
        ;
    } else {
        let u = aa * y;
        let v = s * x;
        let t = u - v;
        assert(t * t >= 0) by (nonlinear_arith);
        assert(t * t == u * u - 2 * (u * v) + v * v) by (nonlinear_arith)
            requires
                t == u - v,
        ;
        assert(u * u == aa * (aa * yy)) by (nonlinear_arith)
            requires
                u == aa * y,
                yy == y * y,
        ;
        assert(u * v == aa * (s * p)) by (nonlinear_arith)
            requires
                u == aa * y,
                v == s * x,
                p == x * y,
        ;
        assert(v * v == (s * s) * xx) by (nonlinear_arith)
            requires
                v == s * x,
                xx == x * x,
        ;
        assert((s * s) * xx <= (aa * bb) * xx) by (nonlinear_arith)
            requires
                s * s <= aa * bb,
                xx >= 0,
        ;
        assert((aa * bb) * xx == aa * (bb * xx)) by (nonlinear_arith);
        assert(aa * (aa * yy + bb * xx - 2 * (s * p)) == aa * (aa * yy) + aa * (bb * xx) - 2 * (aa * (s * p)))
            by (nonlinear_arith);
        assert(aa * yy + bb * xx - 2 * (s * p) >= 0) by (nonlinear_arith)
            requires
                aa > 0,
                aa * (aa * yy + bb * xx - 2 * (s * p)) >= 0,
        ;
    }
    assert((s + p) * (s + p) == s * s + 2 * (s * p) + p * p) by (nonlinear_arith);
    assert((aa + xx) * (bb + yy) == aa * bb + aa * yy + bb * xx + xx * yy) by (nonlinear_arith);
}

/// Cauchy-Schwarz: `dot(a, b)^2 <= |a|^2 * |b|^2`, on every prefix.
pub proof fn lemma_cauchy_schwarz(a: Seq<i16>, b: Seq<i16>, n: nat)
    requires
        n <= a.len(),
        n <= b.len(),
    ensures
        dot_to(a, a, n) >= 0,
        dot_to(b, b, n) >= 0,
        dot_to(a, b, n) * dot_to(a, b, n) <= dot_to(a, a, n) * dot_to(b, b, n),
    decreases n,
{
    if n > 0 {
        lemma_cauchy_schwarz(a, b, (n - 1) as nat);
        let x = a[n - 1] as int;
        let y = b[n - 1] as int;
        assert(x * x >= 0 && y * y >= 0) by (nonlinear_arith);
        lemma_cs_step(
            dot_to(a, b, (n - 1) as nat),
            dot_to(a, a, (n - 1) as nat),
            dot_to(b, b, (n - 1) as nat),
            x,
            y,
        );
    }
}

/// Inner product of two vectors of equal length.
pub fn dot_exec(a: &Vec<i16>, b: &Vec<i16>) -> (r: i64)
    requires
        a.len() == b.len(),
        a.len() <= MAX_DIM,
    ensures
        r == dot(a@, b@),
        -(a.len() as int) * 1073741824 <= r <= (a.len() as int) * 1073741824,
{
    let mut acc: i64 = 0;
    let mut i: usize = 0;
    while i < a.len()
        invariant
            a.len() == b.len(),
            a.len() <= MAX_DIM,
            i <= a.len(),
            acc == dot_to(a@, b@, i as nat),
        decreases a.len() - i,
    {
        proof {
            lemma_dot_bound(a@, b@, i as nat);
            lemma_prod16(a@[i as int], b@[i as int]);
        }
        let p: i64 = (a[i] as i64) * (b[i] as i64);
        acc = acc + p;
        i = i + 1;
    }
    proof {
        lemma_dot_bound(a@, b@, a.len() as nat);
    }
    acc
}

/// Inner product of a bounded normal with a vector of the same length.
pub fn wdot_exec(w: &Vec<i32>, x: &Vec<i16>) -> (r: i64)
    requires
        w.len() == x.len(),
        w.len() <= MAX_DIM,
        normal_bounded(w@),
    ensures
        r == wdot(w@, x@),
        -(w.len() as int) * 2147483648 <= r <= (w.len() as int) * 2147483648,
{
    let mut acc: i64 = 0;
    let mut i: usize = 0;
    while i < w.len()
        invariant
            w.len() == x.len(),
            w.len() <= MAX_DIM,
            normal_bounded(w@),
            i <= w.len(),
            acc == wdot_to(w@, x@, i as nat),
        decreases w.len() - i,
    {
        proof {
            lemma_wdot_bound(w@, x@, i as nat);
            lemma_prod_w(w@[i as int], x@[i as int]);
        }
        let p: i64 = (w[i] as i64) * (x[i] as i64);
        acc = acc + p;
        i = i + 1;
    }
    proof {
        lemma_wdot_bound(w@, x@, w.len() as nat);
    }
    acc
}

} // verus!
