use vstd::prelude::*;
use crate::rng::{draw, draw_spec};
use vstd::wrapping::u64_specs;
use crate::store::VectorStore;
use crate::vector::{normal_bounded, wdot, wdot_exec, MAX_DIM};

verus! {

/// Most items a leaf holds.
pub const LEAF_CAPACITY: usize = 16;

/// Random hyperplanes tried before a node falls back to a split by position.
pub const SPLIT_ATTEMPTS: u64 = 5;

/// A node of a tree's arena. Children are indices into the same arena.
pub enum Node {
    /// The hyperplane `2 * dot(normal, x) == offset`; items with a positive
    /// margin lie under `right`, the others under `left`.
    Split { normal: Vec<i32>, offset: i64, left: usize, right: usize },
    Leaf { items: Vec<i32> },
}

/// One tree: an arena of nodes and the index of its root.
pub struct Tree {
    pub nodes: Vec<Node>,
    pub root: usize,
}

/// Largest magnitude of a split's offset.
pub const MAX_OFFSET: i64 = 17592186044416;

/// The signed margin of `x` from the hyperplane `(normal, offset)`, in units
/// of the normal's length.
pub open spec fn margin(normal: Seq<i32>, offset: i64, x: Seq<i16>) -> int {
    2 * wdot(normal, x) - offset
}

/// Node `i` is well formed: children come earlier in the arena, normals have
/// the dimensionality and bounds of the data, leaves respect the capacity.
pub open spec fn node_wf(nodes: Seq<Node>, i: int, dim: nat) -> bool {
    match nodes[i] {
        Node::Split { normal, offset, left, right } => {
            &&& left < i
            &&& right < i
            &&& normal@.len() == dim
            &&& normal_bounded(normal@)
            &&& -MAX_OFFSET <= offset <= MAX_OFFSET
        },
        Node::Leaf { items } => items.len() <= LEAF_CAPACITY,
    }
}

/// Every leaf item is one of `dom`.
pub open spec fn leaves_in(nodes: Seq<Node>, dom: Set<i32>) -> bool {
    forall|i: int, k: int|
        0 <= i < nodes.len() && (#[trigger] nodes[i]) is Leaf && 0 <= k < nodes[i]->Leaf_items.len()
            ==> dom.contains(#[trigger] nodes[i]->Leaf_items@[k])
}

pub open spec fn arena_wf(nodes: Seq<Node>, dim: nat, dom: Set<i32>) -> bool {
    &&& forall|i: int| 0 <= i < nodes.len() ==> #[trigger] node_wf(nodes, i, dim)
    &&& leaves_in(nodes, dom)
}

/// What a node holds, as plain values: whether it splits, the normal or the
/// leaf's items, the offset, and the two children.
pub open spec fn node_view(x: Node) -> (bool, Seq<i32>, i64, usize, usize) {
    match x {
        Node::Split { normal, offset, left, right } => (true, normal@, offset, left, right),
        Node::Leaf { items } => (false, items@, 0, 0, 0),
    }
}

/// What the nodes of an arena hold.
pub open spec fn arena_view(nodes: Seq<Node>) -> Seq<(bool, Seq<i32>, i64, usize, usize)> {
    Seq::new(nodes.len(), |j: int| node_view(nodes[j]))
}

/// The arena that `build_node` leaves after building the subtree over `ids`
/// onto `arena`, with the counter afterwards.
pub open spec fn build_spec(
    s: Map<i32, Seq<i16>>,
    dim: nat,
    ids: Seq<i32>,
    arena: Seq<(bool, Seq<i32>, i64, usize, usize)>,
    stream: u64,
    counter: u64,
) -> (Seq<(bool, Seq<i32>, i64, usize, usize)>, u64)
    decreases ids.len(),
{
    if ids.len() <= LEAF_CAPACITY {
        (arena.push((false, ids, 0i64, 0usize, 0usize)), counter)
    } else {
        let (normal, offset, l, r, c) = split_spec(s, dim, ids, stream, counter, 0);
        if l.len() < ids.len() && r.len() < ids.len() {
            let (a1, c1) = build_spec(s, dim, l, arena, stream, c);
            let (a2, c2) = build_spec(s, dim, r, a1, stream, c1);
            (a2.push((true, normal, offset, (a1.len() - 1) as usize, (a2.len() - 1) as usize)), c2)
        } else {
            (arena, counter)
        }
    }
}

/// The items held in the leaves under node `i`.
pub open spec fn items_below(nodes: Seq<Node>, i: int) -> Set<i32>
    decreases i,
{
    if 0 <= i < nodes.len() {
        match nodes[i] {
            Node::Leaf { items } => items@.to_set(),
            Node::Split { left, right, .. } => if left < i && right < i {
                items_below(nodes, left as int) + items_below(nodes, right as int)
            } else {
                Set::empty()
            },
        }
    } else {
        Set::empty()
    }
}

impl Tree {
    /// A well-formed tree over the vectors of dimensionality `dim` whose
    /// identifiers are `dom`.
    pub open spec fn wf(&self, dim: nat, dom: Set<i32>) -> bool {
        &&& self.root < self.nodes.len()
        &&& arena_wf(self.nodes@, dim, dom)
    }

    /// The items that the tree holds.
    pub open spec fn items(&self) -> Set<i32> {
        items_below(self.nodes@, self.root as int)
    }
}

/// Growing an arena does not change what lies under its existing nodes.
pub proof fn lemma_items_below_stable(a: Seq<Node>, b: Seq<Node>, i: int)
    requires
        a.len() <= b.len(),
        forall|j: int| 0 <= j < a.len() ==> b[j] == a[j],
        0 <= i < a.len(),
    ensures
        items_below(b, i) == items_below(a, i),
    decreases i,
{
    match a[i] {
        Node::Leaf { .. } => {},
        Node::Split { left, right, .. } => {
            if left < i && right < i {
                lemma_items_below_stable(a, b, left as int);
                lemma_items_below_stable(a, b, right as int);
            }
        },
    }
}

/// The margin of `x` from the hyperplane `(normal, offset)`.
pub fn margin_exec(normal: &Vec<i32>, offset: i64, x: &Vec<i16>) -> (r: i64)
    requires
        normal.len() == x.len(),
        normal.len() <= MAX_DIM,
        normal_bounded(normal@),
        -MAX_OFFSET <= offset <= MAX_OFFSET,
    ensures
        r == margin(normal@, offset, x@),
        -35184372088832 <= r <= 35184372088832,
{
    let d = wdot_exec(normal, x);
    2 * d - offset
}

/// The normal of the bisector of `v` and `u`: `u - v`.
pub open spec fn bisector_spec(u: Seq<i16>, v: Seq<i16>) -> Seq<i32> {
    Seq::new(u.len(), |k: int| (u[k] - v[k]) as i32)
}

/// The items of `ids` with a margin of at most zero from the hyperplane, and
/// those with a positive margin, each in the order of `ids`.
pub open spec fn partition_spec(s: Map<i32, Seq<i16>>, ids: Seq<i32>, normal: Seq<i32>, offset: i64) -> (Seq<i32>, Seq<i32>)
    decreases ids.len(),
{
    if ids.len() == 0 {
        (Seq::empty(), Seq::empty())
    } else {
        let (l, r) = partition_spec(s, ids.drop_last(), normal, offset);
        if margin(normal, offset, s[ids.last()]) > 0 {
            (l, r.push(ids.last()))
        } else {
            (l.push(ids.last()), r)
        }
    }
}

/// One attempt at a split: the bisector of two distinct items drawn from
/// the substream, the sides it makes, and the counter afterwards.
#[verifier::opaque]
pub open spec fn try_split_spec(s: Map<i32, Seq<i16>>, ids: Seq<i32>, stream: u64, counter: u64)
    -> (Seq<i32>, i64, Seq<i32>, Seq<i32>, u64)
{
    let n = ids.len();
    let w1 = draw_spec(stream, counter);
    let c1 = u64_specs::wrapping_add(counter, 1);
    let w2 = draw_spec(stream, c1);
    let c2 = u64_specs::wrapping_add(c1, 1);
    let i = (w1 % (n as u64)) as int;
    let j0 = (w2 % ((n - 1) as u64)) as int;
    let j = if j0 >= i { j0 + 1 } else { j0 };
    let u = s[ids[i]];
    let v = s[ids[j]];
    let normal = bisector_spec(u, v);
    let offset = (wdot(normal, u) + wdot(normal, v)) as i64;
    let (l, r) = partition_spec(s, ids, normal, offset);
    (normal, offset, l, r, c2)
}

/// The split that `choose_split` makes from attempt `attempt` on, with the
/// counter of the substream at `counter`: normal, offset, the two sides, and
/// the counter afterwards.
pub open spec fn split_spec(
    s: Map<i32, Seq<i16>>,
    dim: nat,
    ids: Seq<i32>,
    stream: u64,
    counter: u64,
    attempt: nat,
) -> (Seq<i32>, i64, Seq<i32>, Seq<i32>, u64)
    decreases SPLIT_ATTEMPTS - attempt,
{
    if attempt < SPLIT_ATTEMPTS {
        let (normal, offset, l, r, c2) = try_split_spec(s, ids, stream, counter);
        if l.len() > 0 && r.len() > 0 {
            (normal, offset, l, r, c2)
        } else {
            split_spec(s, dim, ids, stream, c2, attempt + 1)
        }
    } else {
        (Seq::new(dim, |k: int| 0i32), 0, ids.take((ids.len() / 2) as int), ids.skip((ids.len() / 2) as int), counter)
    }
}

/// The perpendicular bisector of the segment from `v` to `u`: the normal is
/// `u - v` and the offset is `dot(u - v, u + v)`, so the margin of a point is
/// `|x - v|^2 - |x - u|^2`, positive on `u`'s side.
fn bisector(u: &Vec<i16>, v: &Vec<i16>) -> (r: (Vec<i32>, i64))
    requires
        u.len() == v.len(),
        u.len() <= MAX_DIM,
    ensures
        r.0.len() == u.len(),
        normal_bounded(r.0@),
        forall|k: int| 0 <= k < u.len() ==> r.0@[k] == u@[k] - v@[k],
        r.0@ == bisector_spec(u@, v@),
        r.1 == wdot(r.0@, u@) + wdot(r.0@, v@),
        -MAX_OFFSET <= r.1 <= MAX_OFFSET,
{
    let mut normal: Vec<i32> = Vec::new();
    let mut k: usize = 0;
    while k < u.len()
        invariant
            u.len() == v.len(),
            k <= u.len(),
            normal.len() == k,
            forall|j: int| 0 <= j < k ==> normal@[j] == u@[j] - v@[j],
        decreases u.len() - k,
    {
        normal.push(u[k] as i32 - v[k] as i32);
        k = k + 1;
    }
    assert(normal@ =~= bisector_spec(u@, v@));
    let a = wdot_exec(&normal, u);
    let b = wdot_exec(&normal, v);
    (normal, a + b)
}

/// A copy of `v`.
pub fn copy_ids(v: &Vec<i32>) -> (r: Vec<i32>)
    ensures
        r@ == v@,
{
    let mut r: Vec<i32> = Vec::new();
    let mut i: usize = 0;
    while i < v.len()
        invariant
            i <= v.len(),
            r@ == v@.take(i as int),
        decreases v.len() - i,
    {
        r.push(v[i]);
        i = i + 1;
        assert(r@ =~= v@.take(i as int));
    }
    assert(v@.take(i as int) =~= v@);
    r
}

/// `left` and `right` together hold exactly the identifiers of `ids`.
pub open spec fn splits(ids: Seq<i32>, left: Seq<i32>, right: Seq<i32>) -> bool {
    &&& left.len() + right.len() == ids.len()
    &&& forall|x: i32|
        #![trigger ids.contains(x)]
        #![trigger left.contains(x)]
        #![trigger right.contains(x)]
        ids.contains(x) <==> (left.contains(x) || right.contains(x))
}

proof fn lemma_push_contains(s: Seq<i32>, a: i32, x: i32)
    ensures
        s.push(a).contains(x) <==> (s.contains(x) || x == a),
{
    if s.contains(x) {
        let j = choose|j: int| 0 <= j < s.len() && s[j] == x;
        assert(s.push(a)[j] == x);
    }
    if x == a {
        assert(s.push(a)[s.len() as int] == a);
    }
    if s.push(a).contains(x) {
        let j = choose|j: int| 0 <= j < s.len() + 1 && s.push(a)[j] == x;
        if j < s.len() {
            assert(s[j] == x);
        }
    }
}

/// Splits `ids` by the side of the hyperplane `(normal, offset)` on which
/// each stored vector lies.
pub fn partition(store: &VectorStore, ids: &Vec<i32>, normal: &Vec<i32>, offset: i64) -> (r: (Vec<i32>, Vec<i32>))
    requires
        store.wf(),
        forall|j: int| 0 <= j < ids.len() ==> store@.contains_key(#[trigger] ids@[j]),
        normal.len() == store.dim,
        normal_bounded(normal@),
        -MAX_OFFSET <= offset <= MAX_OFFSET,
    ensures
        splits(ids@, r.0@, r.1@),
        (r.0@, r.1@) == partition_spec(store@, ids@, normal@, offset),
        forall|j: int| 0 <= j < r.0.len() ==> margin(normal@, offset, store@[#[trigger] r.0@[j]]) <= 0,
        forall|j: int| 0 <= j < r.1.len() ==> margin(normal@, offset, store@[#[trigger] r.1@[j]]) > 0,
{
    proof {
        store.lemma_view_dims();
    }
    let mut left: Vec<i32> = Vec::new();
    let mut right: Vec<i32> = Vec::new();
    let mut i: usize = 0;
    while i < ids.len()
        invariant
            store.wf(),
            forall|j: int| 0 <= j < ids.len() ==> store@.contains_key(#[trigger] ids@[j]),
            forall|id: i32| #[trigger] store@.contains_key(id) ==> store@[id].len() == store.dim,
            normal.len() == store.dim,
            normal_bounded(normal@),
            -MAX_OFFSET <= offset <= MAX_OFFSET,
            i <= ids.len(),
            splits(ids@.take(i as int), left@, right@),
            (left@, right@) == partition_spec(store@, ids@.take(i as int), normal@, offset),
            forall|j: int| 0 <= j < left.len() ==> margin(normal@, offset, store@[#[trigger] left@[j]]) <= 0,
            forall|j: int| 0 <= j < right.len() ==> margin(normal@, offset, store@[#[trigger] right@[j]]) > 0,
        decreases ids.len() - i,
    {
        let id = ids[i];
        let x = store.get(id).unwrap();
        let m = margin_exec(normal, offset, x);
        let ghost (l0, r0) = (left@, right@);
        if m > 0 {
            right.push(id);
        } else {
            left.push(id);
        }
        proof {
            let t0 = ids@.take(i as int);
            assert(ids@.take(i + 1) =~= t0.push(id));
            assert(ids@.take(i + 1).drop_last() =~= t0);
            assert forall|y: i32|
                #![trigger ids@.take(i + 1).contains(y)]
                #![trigger left@.contains(y)]
                #![trigger right@.contains(y)]
                ids@.take(i + 1).contains(y) <==> (left@.contains(y) || right@.contains(y)) by {
                lemma_push_contains(t0, id, y);
                lemma_push_contains(l0, id, y);
                lemma_push_contains(r0, id, y);
                assert(t0.contains(y) <==> (l0.contains(y) || r0.contains(y)));
            }
        }
        i = i + 1;
    }
    assert(ids@.take(i as int) =~= ids@);
    (left, right)
}

/// Splits `ids` by position into two halves of sizes `len / 2` and the rest.
fn halves(ids: &Vec<i32>) -> (r: (Vec<i32>, Vec<i32>))
    requires
        ids.len() >= 2,
    ensures
        splits(ids@, r.0@, r.1@),
        r.0.len() == ids.len() / 2,
        r.0@ == ids@.take((ids.len() / 2) as int),
        r.1@ == ids@.skip((ids.len() / 2) as int),
{
    let h = ids.len() / 2;
    let mut left: Vec<i32> = Vec::new();
    let mut right: Vec<i32> = Vec::new();
    let mut i: usize = 0;
    while i < ids.len()
        invariant
            h == ids.len() / 2,
            i <= ids.len(),
            left.len() == (if i < h { i } else { h }),
            left@ == ids@.take(if i < h { i as int } else { h as int }),
            right@ == (if i < h { Seq::<i32>::empty() } else { ids@.subrange(h as int, i as int) }),
            splits(ids@.take(i as int), left@, right@),
        decreases ids.len() - i,
    {
        let id = ids[i];
        let ghost (l0, r0) = (left@, right@);
        if i < h {
            left.push(id);
            assert(left@ =~= ids@.take(i + 1));
        } else {
            right.push(id);
            assert(right@ =~= ids@.subrange(h as int, i + 1));
        }
        proof {
            let t0 = ids@.take(i as int);
            assert(ids@.take(i + 1) =~= t0.push(id));
            assert forall|y: i32|
                #![trigger ids@.take(i + 1).contains(y)]
                #![trigger left@.contains(y)]
                #![trigger right@.contains(y)]
                ids@.take(i + 1).contains(y) <==> (left@.contains(y) || right@.contains(y)) by {
                lemma_push_contains(t0, id, y);
                lemma_push_contains(l0, id, y);
                lemma_push_contains(r0, id, y);
                assert(t0.contains(y) <==> (l0.contains(y) || r0.contains(y)));
            }
        }
        i = i + 1;
    }
    assert(ids@.take(i as int) =~= ids@);
    (left, right)
}

/// One attempt at a split of `ids`, advancing the substream's counter by two.
fn try_split(store: &VectorStore, ids: &Vec<i32>, stream: u64, counter: &mut u64)
    -> (r: (Vec<i32>, i64, Vec<i32>, Vec<i32>))
    requires
        store.wf(),
        forall|j: int| 0 <= j < ids.len() ==> store@.contains_key(#[trigger] ids@[j]),
        ids.len() >= 2,
    ensures
        r.0.len() == store.dim,
        normal_bounded(r.0@),
        -MAX_OFFSET <= r.1 <= MAX_OFFSET,
        splits(ids@, r.2@, r.3@),
        (r.0@, r.1, r.2@, r.3@, *final(counter)) == try_split_spec(store@, ids@, stream, *old(counter)),
{
    proof {
        store.lemma_view_dims();
    }
    let n = ids.len();
    let w1 = draw(stream, *counter);
    *counter = counter.wrapping_add(1);
    let w2 = draw(stream, *counter);
    *counter = counter.wrapping_add(1);
    let i = (w1 % (n as u64)) as usize;
    let j0 = (w2 % ((n - 1) as u64)) as usize;
    let j = if j0 >= i { j0 + 1 } else { j0 };
    let u = store.get(ids[i]).unwrap();
    let v = store.get(ids[j]).unwrap();
    let (normal, offset) = bisector(u, v);
    let (left, right) = partition(store, ids, &normal, offset);
    proof {
        reveal(try_split_spec);
    }
    (normal, offset, left, right)
}

/// A split of `ids` (at least two of them) into two non-empty sides. Up to
/// `SPLIT_ATTEMPTS` times, two distinct items are drawn from the substream and
/// their bisector is tried; where every try leaves a side empty (as with
/// identical vectors), the hyperplane is the zero one, on which every margin
/// is zero, and the items are halved by position.
fn choose_split(store: &VectorStore, ids: &Vec<i32>, stream: u64, counter: &mut u64)
    -> (r: (Vec<i32>, i64, Vec<i32>, Vec<i32>))
    requires
        store.wf(),
        forall|j: int| 0 <= j < ids.len() ==> store@.contains_key(#[trigger] ids@[j]),
        ids.len() >= 2,
    ensures
        r.0.len() == store.dim,
        normal_bounded(r.0@),
        -MAX_OFFSET <= r.1 <= MAX_OFFSET,
        splits(ids@, r.2@, r.3@),
        r.2.len() > 0,
        r.3.len() > 0,
        (r.0@, r.1, r.2@, r.3@, *final(counter)) == split_spec(store@, store.dim as nat, ids@, stream, *old(counter), 0),
{
    proof {
        store.lemma_view_dims();
    }
    let ghost c0 = *counter;
    let n = ids.len();
    let mut attempt: u64 = 0;
    while attempt < SPLIT_ATTEMPTS
        invariant
            attempt <= SPLIT_ATTEMPTS,
            c0 == *old(counter),
            split_spec(store@, store.dim as nat, ids@, stream, c0, 0)
                == split_spec(store@, store.dim as nat, ids@, stream, *counter, attempt as nat),
            store.wf(),
            forall|j: int| 0 <= j < ids.len() ==> store@.contains_key(#[trigger] ids@[j]),
            forall|id: i32| #[trigger] store@.contains_key(id) ==> store@[id].len() == store.dim,
            n == ids.len(),
            n >= 2,
        decreases SPLIT_ATTEMPTS - attempt,
    {
        let ghost cb = *counter;
        let (normal, offset, left, right) = try_split(store, ids, stream, counter);
        proof {
            assert(split_spec(store@, store.dim as nat, ids@, stream, cb, attempt as nat)
                == (if left@.len() > 0 && right@.len() > 0 {
                    (normal@, offset, left@, right@, *counter)
                } else {
                    split_spec(store@, store.dim as nat, ids@, stream, *counter, (attempt + 1) as nat)
                }));
        }
        if left.len() > 0 && right.len() > 0 {
            assert(split_spec(store@, store.dim as nat, ids@, stream, c0, 0) == (normal@, offset, left@, right@, *counter));
            return (normal, offset, left, right);
        }
        attempt = attempt + 1;
    }
    let mut normal: Vec<i32> = Vec::new();
    let mut k: usize = 0;
    while k < store.dim
        invariant
            k <= store.dim,
            normal.len() == k,
            forall|t: int| 0 <= t < k ==> normal@[t] == 0,
        decreases store.dim - k,
    {
        normal.push(0);
        k = k + 1;
    }
    let (left, right) = halves(ids);
    assert(normal@ =~= Seq::new(store.dim as nat, |k: int| 0i32));
    (normal, 0, left, right)
}

/// Builds the subtree over `ids` into the arena `nodes` and returns its root.
/// Nodes already in the arena stay as they are.
pub fn build_node(store: &VectorStore, ids: Vec<i32>, nodes: &mut Vec<Node>, stream: u64, counter: &mut u64)
    -> (root: usize)
    requires
        store.wf(),
        forall|j: int| 0 <= j < ids.len() ==> store@.contains_key(#[trigger] ids@[j]),
        arena_wf(old(nodes)@, store.dim as nat, store@.dom()),
    ensures
        arena_wf(final(nodes)@, store.dim as nat, store@.dom()),
        old(nodes).len() <= final(nodes).len(),
        forall|j: int| 0 <= j < old(nodes).len() ==> final(nodes)@[j] == old(nodes)@[j],
        root < final(nodes).len(),
        root == final(nodes).len() - 1,
        items_below(final(nodes)@, root as int) == ids@.to_set(),
        (arena_view(final(nodes)@), *final(counter))
            == build_spec(store@, store.dim as nat, ids@, arena_view(old(nodes)@), stream, *old(counter)),
    decreases ids.len(),
{
    let ghost dim = store.dim as nat;
    let ghost dom = store@.dom();
    if ids.len() <= LEAF_CAPACITY {
        let ghost s = ids@;
        let ghost pre = nodes@;
        nodes.push(Node::Leaf { items: ids });
        proof {
            assert(arena_view(nodes@) =~= arena_view(pre).push((false, s, 0i64, 0usize, 0usize)));
            assert forall|i: int| 0 <= i < nodes.len() implies #[trigger] node_wf(nodes@, i, dim) by {
                if i < pre.len() {
                    assert(node_wf(pre, i, dim));
                }
            }
            assert forall|i: int, k: int|
                0 <= i < nodes.len() && (#[trigger] nodes@[i]) is Leaf && 0 <= k < nodes@[i]->Leaf_items.len()
                    implies dom.contains(#[trigger] nodes@[i]->Leaf_items@[k]) by {
                if i < pre.len() {
                    assert(nodes@[i] == pre[i]);
                }
            }
        }
        return nodes.len() - 1;
    }
    let (normal, offset, left, right) = choose_split(store, &ids, stream, counter);
    let ghost (ls, rs) = (left@, right@);
    proof {
        assert forall|j: int| 0 <= j < ls.len() implies store@.contains_key(#[trigger] ls[j]) by {
            assert(ls.contains(ls[j]));
            assert(ids@.contains(ls[j]));
        }
        assert forall|j: int| 0 <= j < rs.len() implies store@.contains_key(#[trigger] rs[j]) by {
            assert(rs.contains(rs[j]));
            assert(ids@.contains(rs[j]));
        }
    }
    let ghost a0 = nodes@;
    let ghost c_split = *counter;
    let l = build_node(store, left, nodes, stream, counter);
    let ghost a1 = nodes@;
    let r = build_node(store, right, nodes, stream, counter);
    let ghost a2 = nodes@;
    nodes.push(Node::Split { normal, offset, left: l, right: r });
    proof {
        let a3 = nodes@;
        let top = a3.len() - 1;
        assert forall|i: int| 0 <= i < a3.len() implies #[trigger] node_wf(a3, i, dim) by {
            if i < a2.len() {
                assert(node_wf(a2, i, dim));
                assert(a3[i] == a2[i]);
            }
        }
        assert forall|i: int, k: int|
            0 <= i < a3.len() && (#[trigger] a3[i]) is Leaf && 0 <= k < a3[i]->Leaf_items.len()
                implies dom.contains(#[trigger] a3[i]->Leaf_items@[k]) by {
            assert(a3[i] == a2[i]);
        }
        assert(arena_view(a3) =~= arena_view(a2).push(node_view(a3[top])));
        lemma_items_below_stable(a1, a2, l as int);
        lemma_items_below_stable(a1, a3, l as int);
        lemma_items_below_stable(a2, a3, r as int);
        assert(items_below(a3, top) == items_below(a3, l as int) + items_below(a3, r as int));
        assert(items_below(a3, top) =~= ids@.to_set());
    }
    nodes.len() - 1
}

/// Builds tree number `tree` of a forest with seed `seed` over every stored item.
pub fn build_tree(store: &VectorStore, seed: u32, tree: u32) -> (r: Tree)
    requires
        store.wf(),
    ensures
        r.wf(store.dim as nat, store@.dom()),
        r.items() == store@.dom(),
        r.root == r.nodes.len() - 1,
        arena_view(r.nodes@) == build_spec(
            store@,
            store.dim as nat,
            store.ids@,
            Seq::empty(),
            crate::rng::stream_spec(seed, tree),
            0,
        ).0,
{
    let ids = copy_ids(&store.ids);
    proof {
        store.lemma_dom_len();
        assert forall|j: int| 0 <= j < ids.len() implies store@.contains_key(#[trigger] ids@[j]) by {
            assert(store.ids@.contains(ids@[j]));
        }
    }
    let mut nodes: Vec<Node> = Vec::new();
    assert(arena_view(nodes@) =~= Seq::empty());
    let mut counter: u64 = 0;
    let root = build_node(store, ids, &mut nodes, crate::rng::stream(seed, tree), &mut counter);
    Tree { nodes, root }
}

} // verus!
