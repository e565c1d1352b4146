use vstd::prelude::*;
use crate::rank::contains_id;
use crate::store::VectorStore;
use crate::tree::{arena_view, items_below, margin, margin_exec, node_view, node_wf, Node, Tree};

verus! {

/// A queued exploration state: priority, tree index, node index.
pub type Entry = (i64, usize, usize);

/// Weight of a queued node: `3^i`. A split's two children lie below it in
/// the arena, so replacing a node by its children lowers the total.
pub open spec fn weight(i: nat) -> nat
    decreases i,
{
    if i == 0 {
        1
    } else {
        3 * weight((i - 1) as nat)
    }
}

pub open spec fn qsum(s: Seq<Entry>) -> nat
    decreases s.len(),
{
    if s.len() == 0 {
        0
    } else {
        qsum(s.drop_last()) + weight(s.last().2 as nat)
    }
}

proof fn lemma_weight_mono(a: nat, b: nat)
    requires
        a <= b,
    ensures
        1 <= weight(a) <= weight(b),
    decreases b,
{
    if a < b {
        lemma_weight_mono(a, (b - 1) as nat);
    } else if b > 0 {
        lemma_weight_mono((a - 1) as nat, (b - 1) as nat);
    }
}

proof fn lemma_qsum_remove(s: Seq<Entry>, m: int)
    requires
        0 <= m < s.len(),
    ensures
        qsum(s) == qsum(s.remove(m)) + weight(s[m].2 as nat),
    decreases s.len(),
{
    if m == s.len() - 1 {
        assert(s.remove(m) =~= s.drop_last());
    } else {
        lemma_qsum_remove(s.drop_last(), m);
        assert(s.remove(m).drop_last() =~= s.drop_last().remove(m));
        assert(s.remove(m).last() == s.last());
    }
}

proof fn lemma_qsum_push(s: Seq<Entry>, e: Entry)
    ensures
        qsum(s.push(e)) == qsum(s) + weight(e.2 as nat),
{
    assert(s.push(e).drop_last() =~= s);
}

/// What a node holds (see `node_view`).
pub type NodeV = (bool, Seq<i32>, i64, usize, usize);

/// What the nodes of each tree hold.
pub open spec fn forest_view(trees: Seq<Tree>) -> Seq<Seq<NodeV>> {
    Seq::new(trees.len(), |t: int| arena_view(trees[t].nodes@))
}

/// Index of the first entry of highest priority.
pub open spec fn best_spec(queue: Seq<Entry>) -> int
    decreases queue.len(),
{
    if queue.len() <= 1 {
        0
    } else {
        let m = best_spec(queue.drop_last());
        if queue.last().0 > queue[m].0 {
            queue.len() - 1
        } else {
            m
        }
    }
}

/// `c` followed by the items of a leaf that it does not hold yet, in order.
pub open spec fn add_leaf_spec(c: Seq<i32>, items: Seq<i32>) -> Seq<i32>
    decreases items.len(),
{
    if items.len() == 0 {
        c
    } else {
        let c1 = add_leaf_spec(c, items.drop_last());
        if c1.contains(items.last()) {
            c1
        } else {
            c1.push(items.last())
        }
    }
}

/// One expansion: the entry of highest priority leaves the queue; a leaf
/// adds its items to the candidates, a split queues both children.
pub open spec fn step_spec(f: Seq<Seq<NodeV>>, q: Seq<i16>, queue: Seq<Entry>, c: Seq<i32>) -> (Seq<Entry>, Seq<i32>) {
    let m = best_spec(queue);
    let e = queue[m];
    let rest = queue.remove(m);
    let nd = f[e.1 as int][e.2 as int];
    if nd.0 {
        let d = margin(nd.1, nd.2, q);
        let pr = if d < e.0 { d } else { e.0 as int };
        let pl = if -d < e.0 { -d } else { e.0 as int };
        (rest.push((pl as i64, e.1, nd.3)).push((pr as i64, e.1, nd.4)), c)
    } else {
        (rest, add_leaf_spec(c, nd.1))
    }
}

/// The candidates gathered from the state `(queue, c)` on, for a budget.
pub open spec fn run_spec(f: Seq<Seq<NodeV>>, q: Seq<i16>, budget: int, queue: Seq<Entry>, c: Seq<i32>) -> Seq<i32>
    decreases qsum(queue),
{
    if queue.len() > 0 && c.len() < budget {
        let (q2, c2) = step_spec(f, q, queue, c);
        if qsum(q2) < qsum(queue) {
            run_spec(f, q, budget, q2, c2)
        } else {
            c
        }
    } else {
        c
    }
}

/// The queue at the start: every root, at the highest priority.
pub open spec fn roots_spec(f: Seq<Seq<NodeV>>) -> Seq<Entry> {
    Seq::new(f.len(), |t: int| (i64::MAX, t as usize, (f[t].len() - 1) as usize))
}

/// The candidates that a query `q` gathers from the forest `f` for `budget`.
pub open spec fn candidates_spec(f: Seq<Seq<NodeV>>, q: Seq<i16>, budget: int) -> Seq<i32> {
    run_spec(f, q, budget, roots_spec(f), Seq::empty())
}

proof fn lemma_add_leaf_grows(c: Seq<i32>, items: Seq<i32>, x: i32)
    requires
        c.contains(x),
    ensures
        add_leaf_spec(c, items).contains(x),
    decreases items.len(),
{
    if items.len() > 0 {
        lemma_add_leaf_grows(c, items.drop_last(), x);
        let c1 = add_leaf_spec(c, items.drop_last());
        if !c1.contains(items.last()) {
            let j = choose|j: int| 0 <= j < c1.len() && c1[j] == x;
            assert(c1.push(items.last())[j] == x);
        }
    }
}

proof fn lemma_run_grows(f: Seq<Seq<NodeV>>, q: Seq<i16>, b: int, queue: Seq<Entry>, c: Seq<i32>, x: i32)
    requires
        c.contains(x),
    ensures
        run_spec(f, q, b, queue, c).contains(x),
    decreases qsum(queue),
{
    if queue.len() > 0 && c.len() < b {
        let (q2, c2) = step_spec(f, q, queue, c);
        if qsum(q2) < qsum(queue) {
            let nd = f[queue[best_spec(queue)].1 as int][queue[best_spec(queue)].2 as int];
            if !nd.0 {
                lemma_add_leaf_grows(c, nd.1, x);
            }
            lemma_run_grows(f, q, b, q2, c2, x);
        }
    }
}

/// A larger budget gathers every candidate that a smaller one does.
pub proof fn lemma_run_mono(f: Seq<Seq<NodeV>>, q: Seq<i16>, b1: int, b2: int, queue: Seq<Entry>, c: Seq<i32>, x: i32)
    requires
        b1 <= b2,
        run_spec(f, q, b1, queue, c).contains(x),
    ensures
        run_spec(f, q, b2, queue, c).contains(x),
    decreases qsum(queue),
{
    if queue.len() > 0 && c.len() < b1 {
        let (q2, c2) = step_spec(f, q, queue, c);
        if qsum(q2) < qsum(queue) {
            lemma_run_mono(f, q, b1, b2, q2, c2, x);
        }
    } else {
        lemma_run_grows(f, q, b2, queue, c, x);
    }
}

/// Every tree is well formed over the store.
pub open spec fn trees_wf(trees: Seq<Tree>, store: &VectorStore) -> bool {
    forall|t: int| 0 <= t < trees.len() ==> (#[trigger] trees[t]).wf(store.dim as nat, store@.dom())
}

/// The items of all trees.
pub open spec fn forest_items(trees: Seq<Tree>) -> Set<i32> {
    Set::new(|x: i32| exists|t: int| 0 <= t < trees.len() && (#[trigger] trees[t]).items().contains(x))
}

/// `x` of tree `t` is already a candidate or lies under a queued node of `t`.
pub open spec fn covered(trees: Seq<Tree>, queue: Seq<Entry>, cands: Seq<i32>, t: int, x: i32) -> bool {
    cands.contains(x) || exists|k: int|
        0 <= k < queue.len() && (#[trigger] queue[k]).1 == t
            && items_below(trees[t].nodes@, queue[k].2 as int).contains(x)
}

pub open spec fn queue_wf(trees: Seq<Tree>, queue: Seq<Entry>) -> bool {
    forall|k: int|
        0 <= k < queue.len() ==> (#[trigger] queue[k]).1 < trees.len() && queue[k].2 < trees[queue[k].1 as int].nodes.len()
}

/// Index of the first entry of highest priority in a non-empty queue.
fn best_entry(queue: &Vec<Entry>) -> (m: usize)
    requires
        queue.len() > 0,
    ensures
        m < queue.len(),
        m == best_spec(queue@),
        forall|k: int| 0 <= k < queue.len() ==> (#[trigger] queue@[k]).0 <= queue@[m as int].0,
{
    let mut m: usize = 0;
    let mut i: usize = 1;
    while i < queue.len()
        invariant
            1 <= i <= queue.len(),
            m < i,
            m == best_spec(queue@.take(i as int)),
            forall|k: int| 0 <= k < i ==> (#[trigger] queue@[k]).0 <= queue@[m as int].0,
        decreases queue.len() - i,
    {
        proof {
            let t = queue@.take(i + 1);
            assert(t.drop_last() =~= queue@.take(i as int));
        }
        if queue[i].0 > queue[m].0 {
            m = i;
        }
        i = i + 1;
    }
    assert(queue@.take(i as int) =~= queue@);
    m
}

/// Gathers distinct candidates for the query `q` by walking all trees at once,
/// always expanding the queued node of highest priority: a root has the
/// highest priority, and a split hands each child the smaller of its own
/// priority and the query's margin towards that child. It stops once
/// `budget` candidates are gathered or nothing is left to expand; in the
/// latter case every item of every tree is a candidate.
pub fn collect_candidates(store: &VectorStore, trees: &Vec<Tree>, q: &Vec<i16>, budget: usize) -> (c: Vec<i32>)
    requires
        store.wf(),
        q.len() == store.dim,
        trees_wf(trees@, store),
        forall|t: int| 0 <= t < trees.len() ==> (#[trigger] trees@[t]).root == trees@[t].nodes.len() - 1,
    ensures
        c@ == candidates_spec(forest_view(trees@), q@, budget as int),
        c@.no_duplicates(),
        forall|j: int| 0 <= j < c.len() ==> store@.contains_key(#[trigger] c@[j]),
        c.len() < budget ==> forall|x: i32| #[trigger] forest_items(trees@).contains(x) ==> c@.contains(x),
        trees.len() == 0 ==> c.len() == 0,
{
    let mut queue: Vec<Entry> = Vec::new();
    let mut t: usize = 0;
    while t < trees.len()
        invariant
            t <= trees.len(),
            queue.len() == t,
            forall|k: int| 0 <= k < t ==> (#[trigger] queue@[k]) == (i64::MAX, k as usize, trees@[k].root),
        decreases trees.len() - t,
    {
        queue.push((i64::MAX, t, trees[t].root));
        t = t + 1;
    }
    let mut c: Vec<i32> = Vec::new();
    let ghost fv = forest_view(trees@);
    proof {
        assert(queue@ =~= roots_spec(fv));
        assert forall|t: int, x: i32|
            0 <= t < trees.len() && #[trigger] trees@[t].items().contains(x) implies covered(trees@, queue@, c@, t, x) by {
            assert(queue@[t].1 == t);
        }
    }
    while queue.len() > 0 && c.len() < budget
        invariant
            store.wf(),
            q.len() == store.dim,
            trees_wf(trees@, store),
            queue_wf(trees@, queue@),
            fv == forest_view(trees@),
            run_spec(fv, q@, budget as int, queue@, c@) == candidates_spec(fv, q@, budget as int),
            c@.no_duplicates(),
            forall|j: int| 0 <= j < c.len() ==> store@.contains_key(#[trigger] c@[j]),
            trees.len() == 0 ==> c.len() == 0,
            forall|t: int, x: i32|
                0 <= t < trees.len() && #[trigger] trees@[t].items().contains(x) ==> covered(trees@, queue@, c@, t, x),
        decreases qsum(queue@),
    {
        let m = best_entry(&queue);
        let ghost q0 = queue@;
        let ghost c0 = c@;
        let e = queue.remove(m);
        let (prio, t, i) = e;
        proof {
            lemma_qsum_remove(q0, m as int);
            assert(trees@[t as int].wf(store.dim as nat, store@.dom()));
            assert(node_wf(trees@[t as int].nodes@, i as int, store.dim as nat));
            assert forall|k: int| 0 <= k < queue.len() implies (#[trigger] queue@[k]).1 < trees.len()
                && queue@[k].2 < trees@[queue@[k].1 as int].nodes.len() by {
                if k < m {
                    assert(queue@[k] == q0[k]);
                } else {
                    assert(queue@[k] == q0[k + 1]);
                }
            }
        }
        let ghost mid = queue@;
        let nodes = &trees[t].nodes;
        match &nodes[i] {
            Node::Leaf { items } => {
                proof {
                    lemma_weight_mono(i as nat, i as nat);
                }
                let mut j: usize = 0;
                while j < items.len()
                    invariant
                        store.wf(),
                        trees_wf(trees@, store),
                        t < trees.len(),
                        i < trees@[t as int].nodes.len(),
                        *nodes == trees@[t as int].nodes,
                        nodes@[i as int] is Leaf,
                        *items == nodes@[i as int]->Leaf_items,
                        j <= items.len(),
                        c@.no_duplicates(),
                        forall|k: int| 0 <= k < c.len() ==> store@.contains_key(#[trigger] c@[k]),
                        forall|x: i32| c0.contains(x) ==> c@.contains(x),
                        forall|k: int| 0 <= k < j ==> c@.contains(#[trigger] items@[k]),
                        c@ == add_leaf_spec(c0, items@.take(j as int)),
                    decreases items.len() - j,
                {
                    let x = items[j];
                    proof {
                        assert(items@.take(j + 1).drop_last() =~= items@.take(j as int));
                        assert(trees@[t as int].wf(store.dim as nat, store@.dom()));
                        assert(store@.dom().contains(nodes@[i as int]->Leaf_items@[j as int]));
                    }
                    if !contains_id(&c, x) {
                        let ghost cb = c@;
                        c.push(x);
                        proof {
                            assert forall|y: i32| cb.contains(y) implies c@.contains(y) by {
                                let w = choose|w: int| 0 <= w < cb.len() && cb[w] == y;
                                assert(c@[w] == y);
                            }
                            assert(c@[c.len() - 1] == x);
                        }
                    }
                    j = j + 1;
                }
                proof {
                    assert(items@.take(items.len() as int) =~= items@);
                    assert(fv[t as int][i as int] == node_view(nodes@[i as int]));
                    assert(step_spec(fv, q@, q0, c0) == (queue@, c@));
                    assert forall|tt: int, x: i32|
                        0 <= tt < trees.len() && #[trigger] trees@[tt].items().contains(x) implies covered(trees@, queue@, c@, tt, x) by {
                        assert(covered(trees@, q0, c0, tt, x));
                        if !c0.contains(x) {
                            let k = choose|k: int|
                                0 <= k < q0.len() && (#[trigger] q0[k]).1 == tt
                                    && items_below(trees@[tt].nodes@, q0[k].2 as int).contains(x);
                            if k < m {
                                assert(queue@[k] == q0[k]);
                            } else if k > m {
                                assert(queue@[k - 1] == q0[k]);
                            } else {
                                let w = choose|w: int| 0 <= w < items.len() && items@[w] == x;
                                assert(c@.contains(items@[w]));
                            }
                        }
                    }
                }
            },
            Node::Split { normal, offset, left, right } => {
                let d = margin_exec(normal, *offset, q);
                let pr: i64 = if d < prio { d } else { prio };
                let pl: i64 = if -d < prio { -d } else { prio };
                queue.push((pl, t, *left));
                queue.push((pr, t, *right));
                proof {
                    let nd = trees@[t as int].nodes@;
                    assert(fv[t as int][i as int] == node_view(nodes@[i as int]));
                    assert(step_spec(fv, q@, q0, c0) == (queue@, c@));
                    lemma_qsum_push(mid, (pl, t, *left));
                    lemma_qsum_push(mid.push((pl, t, *left)), (pr, t, *right));
                    lemma_weight_mono(*right as nat, (i - 1) as nat);
                    lemma_weight_mono(*left as nat, (i - 1) as nat);
                    assert(weight(i as nat) == 3 * weight((i - 1) as nat));
                    assert(queue@[queue.len() - 2] == (pl, t, *left));
                    assert(queue@[queue.len() - 1] == (pr, t, *right));
                    assert forall|k: int| 0 <= k < queue.len() implies (#[trigger] queue@[k]).1 < trees.len()
                        && queue@[k].2 < trees@[queue@[k].1 as int].nodes.len() by {
                        if k < mid.len() {
                            assert(queue@[k] == mid[k]);
                        }
                    }
                    assert forall|tt: int, x: i32|
                        0 <= tt < trees.len() && #[trigger] trees@[tt].items().contains(x) implies covered(trees@, queue@, c@, tt, x) by {
                        assert(covered(trees@, q0, c0, tt, x));
                        if !c0.contains(x) {
                            let k = choose|k: int|
                                0 <= k < q0.len() && (#[trigger] q0[k]).1 == tt
                                    && items_below(trees@[tt].nodes@, q0[k].2 as int).contains(x);
                            if k < m {
                                assert(queue@[k] == q0[k]);
                            } else if k > m {
                                assert(queue@[k - 1] == q0[k]);
                            } else {
                                assert(items_below(nd, i as int) == items_below(nd, *left as int) + items_below(nd, *right as int));
                                if items_below(nd, *left as int).contains(x) {
                                    assert(queue@[queue.len() - 2].1 == tt);
                                } else {
                                    assert(queue@[queue.len() - 1].1 == tt);
                                }
                            }
                        }
                    }
                }
            },
        }
    }
    proof {
        assert(run_spec(fv, q@, budget as int, queue@, c@) == c@);
        if c.len() < budget {
            assert forall|x: i32| #[trigger] forest_items(trees@).contains(x) implies c@.contains(x) by {
                let t = choose|t: int| 0 <= t < trees.len() && (#[trigger] trees@[t]).items().contains(x);
                assert(covered(trees@, queue@, c@, t, x));
            }
        }
    }
    c
}

} // verus!
