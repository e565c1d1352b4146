use vstd::prelude::*;
use crate::store::VectorStore;
use crate::vector::{dot, dot_exec, lemma_cauchy_schwarz, norm2};
use vstd::set_lib::lemma_len_subset;

verus! {

/// For a query `q` and an item `u`, write `a = dot(q, u)` and `b = |u|^2`.
/// The cosine similarity is `a / (|q| * sqrt(b))`, and zero for a zero `u`.
/// For a fixed `q` it orders items exactly as the fraction
/// `sim_num(a, b) / sim_den(b)`, i.e. `a * |a| / b`, does.
pub open spec fn sim_num(a: int, b: int) -> int {
    if b > 0 {
        a * (if a < 0 { -a } else { a })
    } else {
        0
    }
}

pub open spec fn sim_den(b: int) -> int {
    if b > 0 {
        b
    } else {
        1
    }
}

/// The item with key `(a1, b1)` is strictly more similar to the query than
/// the one with key `(a2, b2)`; equivalently, strictly nearer in angular
/// distance.
pub open spec fn more_similar(a1: int, b1: int, a2: int, b2: int) -> bool {
    sim_num(a1, b1) * sim_den(b2) > sim_num(a2, b2) * sim_den(b1)
}

/// Ranking order on keyed items: nearer first, ties by smaller identifier.
pub open spec fn key_before(a1: int, b1: int, x: i32, a2: int, b2: int, y: i32) -> bool {
    more_similar(a1, b1, a2, b2) || (!more_similar(a2, b2, a1, b1) && x < y)
}

/// Item `x` ranks ahead of item `y` for the query `q` over the stored vectors `s`.
pub open spec fn ranks_before(q: Seq<i16>, s: Map<i32, Seq<i16>>, x: i32, y: i32) -> bool {
    key_before(dot(q, s[x]), norm2(s[x]), x, dot(q, s[y]), norm2(s[y]), y)
}

proof fn lemma_frac_trans(n1: int, d1: int, n2: int, d2: int, n3: int, d3: int)
    requires
        d1 > 0,
        d2 > 0,
        d3 > 0,
    ensures
        n1 * d2 > n2 * d1 && n2 * d3 > n3 * d2 ==> n1 * d3 > n3 * d1,
        n1 * d2 >= n2 * d1 && n2 * d3 >= n3 * d2 ==> n1 * d3 >= n3 * d1,
{
    assert(n1 * d2 > n2 * d1 && n2 * d3 > n3 * d2 ==> n1 * d3 > n3 * d1) by (nonlinear_arith)
        requires
            d1 > 0,
            d2 > 0,
            d3 > 0,
    {
        if n1 * d2 > n2 * d1 && n2 * d3 > n3 * d2 {
            assert(n1 * d2 * d3 > n2 * d1 * d3);
            assert(n2 * d3 * d1 > n3 * d2 * d1);
            assert(d2 * (n1 * d3) > d2 * (n3 * d1));
        }
    }
    assert(n1 * d2 >= n2 * d1 && n2 * d3 >= n3 * d2 ==> n1 * d3 >= n3 * d1) by (nonlinear_arith)
        requires
            d1 > 0,
            d2 > 0,
            d3 > 0,
    {
        if n1 * d2 >= n2 * d1 && n2 * d3 >= n3 * d2 {
            assert(n1 * d2 * d3 >= n2 * d1 * d3);
            assert(n2 * d3 * d1 >= n3 * d2 * d1);
            assert(d2 * (n1 * d3) >= d2 * (n3 * d1));
        }
    }
}

/// The ranking order is transitive.
pub proof fn lemma_key_before_trans(a1: int, b1: int, x: i32, a2: int, b2: int, y: i32, a3: int, b3: int, z: i32)
    requires
        key_before(a1, b1, x, a2, b2, y),
        key_before(a2, b2, y, a3, b3, z),
    ensures
        key_before(a1, b1, x, a3, b3, z),
{
    let (n1, d1) = (sim_num(a1, b1), sim_den(b1));
    let (n2, d2) = (sim_num(a2, b2), sim_den(b2));
    let (n3, d3) = (sim_num(a3, b3), sim_den(b3));
    lemma_frac_trans(n1, d1, n2, d2, n3, d3);
    lemma_frac_trans(n3, d3, n2, d2, n1, d1);
    lemma_frac_trans(n2, d2, n1, d1, n3, d3);
    lemma_frac_trans(n1, d1, n3, d3, n2, d2);
    lemma_frac_trans(n2, d2, n3, d3, n1, d1);
    lemma_frac_trans(n3, d3, n1, d1, n2, d2);
}

/// The ranking order is total on distinct identifiers and irreflexive.
pub proof fn lemma_key_before_total(a1: int, b1: int, x: i32, a2: int, b2: int, y: i32)
    ensures
        x != y ==> key_before(a1, b1, x, a2, b2, y) || key_before(a2, b2, y, a1, b1, x),
        !(key_before(a1, b1, x, a2, b2, y) && key_before(a2, b2, y, a1, b1, x)),
{
}

proof fn lemma_sim_num_bound(a: i64, b: i64)
    requires
        -4398046511104 <= a <= 4398046511104,
        -4398046511104 <= b <= 4398046511104,
    ensures
        -19342813113834066795298816 <= sim_num(a as int, b as int) <= 19342813113834066795298816,
{
    let ai = a as int;
    let m: int = if ai < 0 { -ai } else { ai };
    assert(-19342813113834066795298816 <= ai * m <= 19342813113834066795298816)
        by (nonlinear_arith)
        requires
            -4398046511104 <= ai <= 4398046511104,
            0 <= m <= 4398046511104,
            m == ai || m == -ai,
    ;
}

proof fn lemma_cross_bound(n: int, d: int)
    requires
        -19342813113834066795298816 <= n <= 19342813113834066795298816,
        1 <= d <= 4398046511104,
    ensures
        -85070591730234615865843651857942052864 <= n * d <= 85070591730234615865843651857942052864,
{
    assert(-85070591730234615865843651857942052864 <= n * d <= 85070591730234615865843651857942052864)
        by (nonlinear_arith)
        requires
            -19342813113834066795298816 <= n <= 19342813113834066795298816,
            1 <= d <= 4398046511104,
    ;
}

/// Whether key `(a1, b1)` is strictly more similar than key `(a2, b2)`.
pub fn more_similar_exec(a1: i64, b1: i64, a2: i64, b2: i64) -> (r: bool)
    requires
        -4398046511104 <= a1 <= 4398046511104,
        -4398046511104 <= b1 <= 4398046511104,
        -4398046511104 <= a2 <= 4398046511104,
        -4398046511104 <= b2 <= 4398046511104,
    ensures
        r == more_similar(a1 as int, b1 as int, a2 as int, b2 as int),
{
    proof {
        lemma_sim_num_bound(a1, b1);
        lemma_sim_num_bound(a2, b2);
        lemma_cross_bound(sim_num(a1 as int, b1 as int), sim_den(b2 as int));
        lemma_cross_bound(sim_num(a2 as int, b2 as int), sim_den(b1 as int));
    }
    let n1: i128 = if b1 > 0 {
        (a1 as i128) * (if a1 < 0 { -(a1 as i128) } else { a1 as i128 })
    } else {
        0
    };
    let n2: i128 = if b2 > 0 {
        (a2 as i128) * (if a2 < 0 { -(a2 as i128) } else { a2 as i128 })
    } else {
        0
    };
    let d1: i128 = if b1 > 0 { b1 as i128 } else { 1 };
    let d2: i128 = if b2 > 0 { b2 as i128 } else { 1 };
    n1 * d2 > n2 * d1
}

/// `r` is the best `k` of the distinct candidates `c` for the query `q` over
/// the stored vectors `s`, nearest first.
pub open spec fn is_top(q: Seq<i16>, s: Map<i32, Seq<i16>>, c: Seq<i32>, k: int, r: Seq<i32>) -> bool {
    &&& r.len() == (if k < c.len() { k } else { c.len() as int })
    &&& r.no_duplicates()
    &&& forall|j: int| 0 <= j < r.len() ==> c.contains(#[trigger] r[j])
    &&& forall|i: int, j: int| 0 <= i < j < r.len() ==> ranks_before(q, s, r[i], r[j])
    &&& forall|x: i32, j: int| c.contains(x) && !r.contains(x) && 0 <= j < r.len() ==> ranks_before(q, s, r[j], x)
}

proof fn lemma_top_prefix(q: Seq<i16>, s: Map<i32, Seq<i16>>, c: Seq<i32>, k: int, r1: Seq<i32>, r2: Seq<i32>, i: int)
    requires
        is_top(q, s, c, k, r1),
        is_top(q, s, c, k, r2),
        0 <= i <= r1.len(),
    ensures
        forall|j: int| 0 <= j < i ==> r1[j] == r2[j],
    decreases i,
{
    if i > 0 {
        lemma_top_prefix(q, s, c, k, r1, r2, i - 1);
        let m = i - 1;
        let x = r1[m];
        let y = r2[m];
        if x != y {
            lemma_key_before_total(dot(q, s[x]), norm2(s[x]), x, dot(q, s[y]), norm2(s[y]), y);
            assert(c.contains(x) && c.contains(y));
            if ranks_before(q, s, x, y) {
                if r2.contains(x) {
                    let j = choose|j: int| 0 <= j < r2.len() && r2[j] == x;
                    if j < m {
                        assert(r1[j] == x);
                        assert(r1[j] == r1[m]);
                    } else if j > m {
                        assert(ranks_before(q, s, r2[m], r2[j]));
                    }
                } else {
                    assert(ranks_before(q, s, r2[m], x));
                }
            } else {
                if r1.contains(y) {
                    let j = choose|j: int| 0 <= j < r1.len() && r1[j] == y;
                    if j < m {
                        assert(r1[j] == r2[j]);
                        assert(r2[j] == r2[m]);
                    } else if j > m {
                        assert(ranks_before(q, s, r1[m], r1[j]));
                    }
                } else {
                    assert(ranks_before(q, s, r1[m], y));
                }
            }
        }
    }
}

/// The best `k` of a candidate set is unique: two sequences that both are
/// the best `k` of `c` for the same query and vectors are equal.
pub proof fn lemma_top_unique(q: Seq<i16>, s: Map<i32, Seq<i16>>, c: Seq<i32>, k: int, r1: Seq<i32>, r2: Seq<i32>)
    requires
        is_top(q, s, c, k, r1),
        is_top(q, s, c, k, r2),
    ensures
        r1 == r2,
{
    lemma_top_prefix(q, s, c, k, r1, r2, r1.len() as int);
    assert(r1 =~= r2);
}

/// No vector is strictly more similar to a query, that is strictly nearer
/// in angular distance, than the query itself.
pub proof fn lemma_query_is_nearest_to_itself(q: Seq<i16>, u: Seq<i16>)
    requires
        q.len() == u.len(),
    ensures
        !more_similar(dot(q, u), norm2(u), dot(q, q), norm2(q)),
{
    lemma_cauchy_schwarz(q, u, q.len());
    let a = dot(q, q);
    let b = norm2(u);
    let sv = dot(q, u);
    if b > 0 && a > 0 {
        let m = if sv < 0 { -sv } else { sv };
        assert(sv * m <= sv * sv) by (nonlinear_arith)
            requires
                m == sv || m == -sv,
                m >= 0,
        ;
        assert((sv * m) * a <= (a * a) * b) by (nonlinear_arith)
            requires
                sv * m <= sv * sv,
                sv * sv <= a * b,
                a > 0,
        ;
    } else if b > 0 {
        assert(sv == 0) by (nonlinear_arith)
            requires
                sv * sv <= a * b,
                a == 0,
        ;
    } else if a > 0 {
        assert(a * a >= 0) by (nonlinear_arith);
    }
}

/// A larger candidate set loses no exact neighbour. Let `t` be the best `k`
/// of all items `all`, and `r1`, `r2` the best `k` of candidate sets `c1`,
/// `c2` drawn from `all`. If every candidate of `c1` is one of `c2`, every
/// item of `t` that `r1` holds, `r2` holds as well.
pub proof fn lemma_more_candidates_keep_neighbours(
    q: Seq<i16>,
    s: Map<i32, Seq<i16>>,
    all: Seq<i32>,
    c1: Seq<i32>,
    c2: Seq<i32>,
    k: int,
    r1: Seq<i32>,
    r2: Seq<i32>,
    t: Seq<i32>,
)
    requires
        k >= 0,
        forall|x: i32| c1.contains(x) ==> c2.contains(x),
        forall|x: i32| c2.contains(x) ==> all.contains(x),
        is_top(q, s, c1, k, r1),
        is_top(q, s, c2, k, r2),
        is_top(q, s, all, k, t),
    ensures
        forall|x: i32| r1.contains(x) && t.contains(x) ==> r2.contains(x),
{
    assert forall|x: i32| r1.contains(x) && t.contains(x) implies r2.contains(x) by {
        let i1 = choose|i: int| 0 <= i < r1.len() && r1[i] == x;
        assert(c1.contains(r1[i1]));
        assert(c2.contains(x));
        if !r2.contains(x) {
            r2.unique_seq_to_set();
            t.unique_seq_to_set();
            if r2.len() < k {
                assert(r2.to_set().subset_of(c2.to_set().remove(x)));
                lemma_len_subset(r2.to_set(), c2.to_set().remove(x));
                c2.lemma_cardinality_of_set();
            }
            assert forall|y: i32| r2.contains(y) implies t.contains(y) by {
                let j = choose|j: int| 0 <= j < r2.len() && r2[j] == y;
                assert(ranks_before(q, s, r2[j], x));
                assert(c2.contains(r2[j]));
                if !t.contains(y) {
                    let m = choose|m: int| 0 <= m < t.len() && t[m] == x;
                    assert(ranks_before(q, s, t[m], y));
                    lemma_key_before_total(
                        dot(q, s[x]), norm2(s[x]), x, dot(q, s[y]), norm2(s[y]), y,
                    );
                }
            }
            assert(r2.to_set().insert(x).subset_of(t.to_set()));
            lemma_len_subset(r2.to_set().insert(x), t.to_set());
        }
    }
}

/// Whether `x` occurs in `v`.
pub fn contains_id(v: &Vec<i32>, x: i32) -> (r: bool)
    ensures
        r == v@.contains(x),
{
    let mut i: usize = 0;
    while i < v.len()
        invariant
            i <= v.len(),
            forall|j: int| 0 <= j < i ==> v@[j] != x,
        decreases v.len() - i,
    {
        if v[i] == x {
            return true;
        }
        i = i + 1;
    }
    false
}

/// The similarity keys of the stored vectors `s` for the query `q`, by candidate.
pub open spec fn keys_match(keys: Seq<(i64, i64)>, q: Seq<i16>, s: Map<i32, Seq<i16>>, cands: Seq<i32>) -> bool {
    &&& keys.len() == cands.len()
    &&& forall|i: int|
        0 <= i < cands.len() ==> {
            &&& (#[trigger] keys[i]).0 == dot(q, s[cands[i]])
            &&& keys[i].1 == norm2(s[cands[i]])
            &&& -4398046511104 <= keys[i].0 <= 4398046511104
            &&& -4398046511104 <= keys[i].1 <= 4398046511104
        }
}

fn candidate_keys(store: &VectorStore, q: &Vec<i16>, cands: &Vec<i32>) -> (keys: Vec<(i64, i64)>)
    requires
        store.wf(),
        q.len() == store.dim,
        forall|i: int| 0 <= i < cands.len() ==> store@.contains_key(#[trigger] cands@[i]),
    ensures
        keys_match(keys@, q@, store@, cands@),
{
    proof {
        store.lemma_view_dims();
    }
    let mut keys: Vec<(i64, i64)> = Vec::new();
    let mut i: usize = 0;
    while i < cands.len()
        invariant
            store.wf(),
            q.len() == store.dim,
            forall|i: int| 0 <= i < cands.len() ==> store@.contains_key(#[trigger] cands@[i]),
            forall|id: i32| #[trigger] store@.contains_key(id) ==> store@[id].len() == store.dim,
            i <= cands.len(),
            keys_match(keys@, q@, store@, cands@.take(i as int)),
        decreases cands.len() - i,
    {
        let v = store.get(cands[i]).unwrap();
        let a = dot_exec(q, v);
        let b = dot_exec(v, v);
        keys.push((a, b));
        i = i + 1;
        assert(cands@.take(i as int).drop_last() =~= cands@.take(i - 1));
    }
    assert(cands@.take(i as int) =~= cands@);
    keys
}

fn key_before_exec(k1: (i64, i64), x: i32, k2: (i64, i64), y: i32) -> (r: bool)
    requires
        -4398046511104 <= k1.0 <= 4398046511104,
        -4398046511104 <= k1.1 <= 4398046511104,
        -4398046511104 <= k2.0 <= 4398046511104,
        -4398046511104 <= k2.1 <= 4398046511104,
    ensures
        r == key_before(k1.0 as int, k1.1 as int, x, k2.0 as int, k2.1 as int, y),
{
    more_similar_exec(k1.0, k1.1, k2.0, k2.1) || (!more_similar_exec(k2.0, k2.1, k1.0, k1.1) && x < y)
}

/// The `k` best of the distinct candidates `cands` for the query `q`, in
/// ranking order: nearest first, ties by smaller identifier.
pub fn top_k(store: &VectorStore, q: &Vec<i16>, cands: &Vec<i32>, k: usize) -> (r: Vec<i32>)
    requires
        store.wf(),
        q.len() == store.dim,
        cands@.no_duplicates(),
        forall|i: int| 0 <= i < cands.len() ==> store@.contains_key(#[trigger] cands@[i]),
    ensures
        r.len() == (if k < cands.len() { k } else { cands.len() }),
        r@.no_duplicates(),
        forall|j: int| 0 <= j < r.len() ==> cands@.contains(#[trigger] r@[j]),
        forall|i: int, j: int| 0 <= i < j < r.len() ==> ranks_before(q@, store@, r@[i], r@[j]),
        forall|c: i32, j: int|
            cands@.contains(c) && !r@.contains(c) && 0 <= j < r.len() ==> ranks_before(q@, store@, r@[j], c),
{
    let keys = candidate_keys(store, q, cands);
    let n = cands.len();
    let mut r: Vec<i32> = Vec::new();
    let ghost mut sel: Seq<int> = Seq::empty();
    while r.len() < k && r.len() < n
        invariant
            n == cands.len(),
            cands@.no_duplicates(),
            keys_match(keys@, q@, store@, cands@),
            r.len() <= k,
            r.len() <= n,
            r@.no_duplicates(),
            sel.len() == r.len(),
            forall|j: int| 0 <= j < r.len() ==> 0 <= #[trigger] sel[j] < n && r@[j] == cands@[sel[j]],
            forall|i: int, j: int| 0 <= i < j < r.len() ==> ranks_before(q@, store@, r@[i], r@[j]),
            forall|c: i32, j: int|
                cands@.contains(c) && !r@.contains(c) && 0 <= j < r.len() ==> ranks_before(q@, store@, r@[j], c),
        decreases n - r.len(),
    {
        proof {
            if forall|i: int| 0 <= i < n ==> r@.contains(#[trigger] cands@[i]) {
                assert(cands@.to_set().subset_of(r@.to_set()));
                lemma_len_subset(cands@.to_set(), r@.to_set());
                cands@.unique_seq_to_set();
                r@.unique_seq_to_set();
            }
        }
        let ghost free = choose|i: int| 0 <= i < n && !r@.contains(#[trigger] cands@[i]);
        let mut best: usize = n;
        let mut i: usize = 0;
        while i < n
            invariant
                n == cands.len(),
                cands@.no_duplicates(),
                keys_match(keys@, q@, store@, cands@),
                0 <= free < n && !r@.contains(cands@[free]),
                i <= n,
                best == n || (best < i && !r@.contains(cands@[best as int])),
                best == n ==> forall|i2: int| 0 <= i2 < i ==> r@.contains(#[trigger] cands@[i2]),
                best < n ==> forall|i2: int|
                    0 <= i2 < i && i2 != best && !r@.contains(#[trigger] cands@[i2])
                        ==> ranks_before(q@, store@, cands@[best as int], cands@[i2]),
            decreases n - i,
        {
            let c = cands[i];
            if !contains_id(&r, c) {
                if best == n {
                    best = i;
                } else if key_before_exec(keys[i], c, keys[best], cands[best]) {
                    proof {
                        let ob = best as int;
                        assert forall|i2: int|
                            0 <= i2 < i && i2 != i && !r@.contains(#[trigger] cands@[i2])
                                implies ranks_before(q@, store@, cands@[i as int], cands@[i2]) by {
                            if i2 != ob {
                                lemma_key_before_trans(
                                    keys@[i as int].0 as int, keys@[i as int].1 as int, cands@[i as int],
                                    keys@[ob].0 as int, keys@[ob].1 as int, cands@[ob],
                                    keys@[i2].0 as int, keys@[i2].1 as int, cands@[i2],
                                );
                            }
                        }
                    }
                    best = i;
                } else {
                    proof {
                        let ob = best as int;
                        assert(cands@[ob] != cands@[i as int]);
                        lemma_key_before_total(
                            keys@[i as int].0 as int, keys@[i as int].1 as int, cands@[i as int],
                            keys@[ob].0 as int, keys@[ob].1 as int, cands@[ob],
                        );
                    }
                }
            }
            i = i + 1;
        }
        let ghost b = best as int;
        let ghost pre = r@;
        r.push(cands[best]);
        proof {
            sel = sel.push(b);
            assert(pre.contains(cands@[b]) == false);
            assert forall|c: i32, j: int|
                cands@.contains(c) && !r@.contains(c) && 0 <= j < r.len()
                    implies ranks_before(q@, store@, r@[j], c) by {
                assert(!pre.contains(c)) by {
                    if pre.contains(c) {
                        let t = choose|t: int| 0 <= t < pre.len() && pre[t] == c;
                        assert(r@[t] == c);
                    }
                }
                if j < pre.len() {
                    assert(r@[j] == pre[j]);
                } else {
                    let i2 = choose|i2: int| 0 <= i2 < n && cands@[i2] == c;
                    assert(r@[r.len() - 1] == cands@[b]);
                    assert(c != cands@[b]);
                    assert(!r@.contains(cands@[i2]));
                }
            }
            assert forall|i1: int, j: int| 0 <= i1 < j < r.len() implies ranks_before(q@, store@, r@[i1], r@[j]) by {
                if j == r.len() - 1 {
                    assert(r@[i1] == pre[i1]);
                    assert(cands@.contains(cands@[b]));
                } else {
                    assert(r@[i1] == pre[i1] && r@[j] == pre[j]);
                }
            }
        }
    }
    proof {
        assert forall|j: int| 0 <= j < r.len() implies cands@.contains(#[trigger] r@[j]) by {
            assert(cands@[sel[j]] == r@[j]);
        }
    }
    r
}

} // verus!
