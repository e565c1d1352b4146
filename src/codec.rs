use vstd::prelude::*;
use crate::bytes::{enc_u, lemma_dec_bound, lemma_dec_enc, lemma_enc_dec, lemma_pow256_widths, read_u, write_u};
use crate::rank::contains_id;
use crate::tree::{arena_view, arena_wf, leaves_in, node_view, MAX_OFFSET};
use crate::vector::{normal_bounded, MAX_DIM};
use crate::AnnError;
use crate::search::{forest_view, trees_wf, NodeV};
use crate::store::VectorStore;
use crate::tree::{node_wf, Node, Tree, LEAF_CAPACITY};

verus! {

/// The bytes `A N N Y`, read as a little-endian `u32`.
pub const MAGIC: u32 = 0x594E4E41;

/// Version of the layout below.
pub const VERSION: u32 = 1;

/// Largest count that the layout holds.
pub const MAX_COUNT: usize = 0xFFFF_FFFF;

// Layout, little-endian throughout. An `i32` (an id or a normal coordinate)
// is stored as its bit pattern read as `u32`; an `i16` or `i64` with the bias
// that makes it non-negative (`x + 2^15`, `x + 2^63`).
//   header: magic u32, version u32, dim u32, item_count u32, tree_count u32
//   item:   id (the bit pattern of the i32, as u32), then dim coordinates i16
//   tree:   node_count u32, then its nodes in arena order; the root is last
//   split:  tag 0, dim normal coordinates i32, offset i64, left u32, right u32
//   leaf:   tag 1, count u32, count ids (as for items)

pub open spec fn enc_i16(x: i16) -> Seq<u8> {
    enc_u((x + 32768) as nat, 2)
}

/// The bit pattern of `x` read as a `u32` (two's complement).
pub open spec fn bits32(x: i32) -> nat {
    if x >= 0 {
        x as nat
    } else {
        (x + 4294967296) as nat
    }
}

pub open spec fn enc_i32(x: i32) -> Seq<u8> {
    enc_u(bits32(x), 4)
}

pub open spec fn enc_i64(x: i64) -> Seq<u8> {
    enc_u((x + 9223372036854775808) as nat, 8)
}

pub open spec fn enc_count(n: nat) -> Seq<u8> {
    enc_u(n, 4)
}

pub open spec fn enc_vec16(s: Seq<i16>) -> Seq<u8>
    decreases s.len(),
{
    if s.len() == 0 {
        Seq::empty()
    } else {
        enc_vec16(s.drop_last()) + enc_i16(s.last())
    }
}

pub open spec fn enc_vec32(s: Seq<i32>) -> Seq<u8>
    decreases s.len(),
{
    if s.len() == 0 {
        Seq::empty()
    } else {
        enc_vec32(s.drop_last()) + enc_i32(s.last())
    }
}

/// The first `n` items of the store.
pub open spec fn enc_items(ids: Seq<i32>, vecs: Seq<Vec<i16>>, n: nat) -> Seq<u8>
    decreases n,
{
    if n == 0 {
        Seq::empty()
    } else {
        enc_items(ids, vecs, (n - 1) as nat) + enc_i32(ids[n - 1]) + enc_vec16(vecs[n - 1]@)
    }
}

pub open spec fn enc_node(x: Node) -> Seq<u8> {
    match x {
        Node::Split { normal, offset, left, right } => seq![0u8] + enc_vec32(normal@) + enc_i64(offset)
            + enc_count(left as nat) + enc_count(right as nat),
        Node::Leaf { items } => seq![1u8] + enc_count(items.len() as nat) + enc_vec32(items@),
    }
}

/// The first `n` nodes of an arena.
pub open spec fn enc_nodes(nodes: Seq<Node>, n: nat) -> Seq<u8>
    decreases n,
{
    if n == 0 {
        Seq::empty()
    } else {
        enc_nodes(nodes, (n - 1) as nat) + enc_node(nodes[n - 1])
    }
}

pub open spec fn enc_tree(t: Tree) -> Seq<u8> {
    enc_count(t.nodes.len() as nat) + enc_nodes(t.nodes@, t.nodes.len() as nat)
}

/// The first `n` trees.
pub open spec fn enc_trees(trees: Seq<Tree>, n: nat) -> Seq<u8>
    decreases n,
{
    if n == 0 {
        Seq::empty()
    } else {
        enc_trees(trees, (n - 1) as nat) + enc_tree(trees[n - 1])
    }
}

pub open spec fn enc_header(dim: nat, n_items: nat, n_trees: nat) -> Seq<u8> {
    enc_u(MAGIC as nat, 4) + enc_u(VERSION as nat, 4) + enc_count(dim) + enc_count(n_items) + enc_count(n_trees)
}

/// The saved form of a store and its trees.
pub open spec fn encoding(store: VectorStore, trees: Seq<Tree>) -> Seq<u8> {
    enc_header(store.dim as nat, store.ids.len() as nat, trees.len())
        + enc_items(store.ids@, store.vecs@, store.ids.len() as nat)
        + enc_trees(trees, trees.len())
}

/// The first `n` items in the order `ids`, with their vectors from `m`.
pub open spec fn enc_items_v(ids: Seq<i32>, m: Map<i32, Seq<i16>>, n: nat) -> Seq<u8>
    decreases n,
{
    if n == 0 {
        Seq::empty()
    } else {
        enc_items_v(ids, m, (n - 1) as nat) + enc_i32(ids[n - 1]) + enc_vec16(m[ids[n - 1]])
    }
}

/// A node given by what it holds (see `node_view`).
pub open spec fn enc_node_v(x: NodeV) -> Seq<u8> {
    if x.0 {
        seq![0u8] + enc_vec32(x.1) + enc_i64(x.2) + enc_count(x.3 as nat) + enc_count(x.4 as nat)
    } else {
        seq![1u8] + enc_count(x.1.len()) + enc_vec32(x.1)
    }
}

pub open spec fn enc_nodes_v(a: Seq<NodeV>, n: nat) -> Seq<u8>
    decreases n,
{
    if n == 0 {
        Seq::empty()
    } else {
        enc_nodes_v(a, (n - 1) as nat) + enc_node_v(a[n - 1])
    }
}

pub open spec fn enc_trees_v(f: Seq<Seq<NodeV>>, n: nat) -> Seq<u8>
    decreases n,
{
    if n == 0 {
        Seq::empty()
    } else {
        enc_trees_v(f, (n - 1) as nat) + enc_count(f[n - 1].len()) + enc_nodes_v(f[n - 1], f[n - 1].len())
    }
}

/// The saved form of an index of dimensionality `dim` whose items, in the
/// order `ids`, have the vectors `m`, and whose trees hold the nodes `f`.
pub open spec fn encoding_v(dim: nat, ids: Seq<i32>, m: Map<i32, Seq<i16>>, f: Seq<Seq<NodeV>>) -> Seq<u8> {
    enc_header(dim, ids.len(), f.len()) + enc_items_v(ids, m, ids.len()) + enc_trees_v(f, f.len())
}

proof fn lemma_items_v(s: VectorStore, n: nat)
    requires
        s.wf(),
        n <= s.ids.len(),
    ensures
        enc_items(s.ids@, s.vecs@, n) == enc_items_v(s.ids@, s@, n),
    decreases n,
{
    if n > 0 {
        lemma_items_v(s, (n - 1) as nat);
        s.lemma_view_at(n - 1);
    }
}

proof fn lemma_nodes_v(nodes: Seq<Node>, n: nat)
    requires
        n <= nodes.len(),
    ensures
        enc_nodes(nodes, n) == enc_nodes_v(arena_view(nodes), n),
    decreases n,
{
    if n > 0 {
        lemma_nodes_v(nodes, (n - 1) as nat);
        assert(arena_view(nodes)[n - 1] == node_view(nodes[n - 1]));
        assert(enc_node(nodes[n - 1]) == enc_node_v(node_view(nodes[n - 1])));
    }
}

proof fn lemma_trees_v(trees: Seq<Tree>, n: nat)
    requires
        n <= trees.len(),
    ensures
        enc_trees(trees, n) == enc_trees_v(forest_view(trees), n),
    decreases n,
{
    if n > 0 {
        lemma_trees_v(trees, (n - 1) as nat);
        let t = trees[n - 1];
        lemma_nodes_v(t.nodes@, t.nodes.len() as nat);
        assert(forest_view(trees)[n - 1] == arena_view(t.nodes@));
    }
}

/// The saved form, stated over what the store and trees hold.
pub proof fn lemma_encoding_v(s: VectorStore, trees: Seq<Tree>)
    requires
        s.wf(),
    ensures
        encoding(s, trees) == encoding_v(s.dim as nat, s.ids@, s@, forest_view(trees)),
{
    lemma_items_v(s, s.ids.len() as nat);
    lemma_trees_v(trees, trees.len());
}

/// Every count fits the layout's 32 bits.
pub open spec fn fits_format(store: VectorStore, trees: Seq<Tree>) -> bool {
    &&& store.ids.len() <= MAX_COUNT
    &&& trees.len() <= MAX_COUNT
    &&& forall|t: int| 0 <= t < trees.len() ==> (#[trigger] trees[t]).nodes.len() <= MAX_COUNT
}

fn write_i16(out: &mut Vec<u8>, x: i16)
    ensures
        final(out)@ == old(out)@ + enc_i16(x),
{
    proof {
        lemma_pow256_widths();
    }
    write_u(out, (x as i32 + 32768) as u64, 2);
}

fn write_i32(out: &mut Vec<u8>, x: i32)
    ensures
        final(out)@ == old(out)@ + enc_i32(x),
{
    proof {
        lemma_pow256_widths();
    }
    let v: u64 = if x >= 0 { x as u64 } else { (x as i64 + 4294967296) as u64 };
    write_u(out, v, 4);
}

fn write_i64(out: &mut Vec<u8>, x: i64)
    ensures
        final(out)@ == old(out)@ + enc_i64(x),
{
    proof {
        lemma_pow256_widths();
    }
    write_u(out, (x as i128 + 9223372036854775808) as u64, 8);
}

fn write_count(out: &mut Vec<u8>, n: usize)
    requires
        n <= MAX_COUNT,
    ensures
        final(out)@ == old(out)@ + enc_count(n as nat),
{
    proof {
        lemma_pow256_widths();
    }
    write_u(out, n as u64, 4);
}

fn write_vec16(out: &mut Vec<u8>, v: &Vec<i16>)
    ensures
        final(out)@ == old(out)@ + enc_vec16(v@),
{
    let ghost start = out@;
    let mut i: usize = 0;
    while i < v.len()
        invariant
            i <= v.len(),
            out@ == start + enc_vec16(v@.take(i as int)),
        decreases v.len() - i,
    {
        write_i16(out, v[i]);
        proof {
            let t = v@.take(i + 1);
            assert(t.drop_last() =~= v@.take(i as int));
            assert(out@ =~= start + enc_vec16(t));
        }
        i = i + 1;
    }
    assert(v@.take(i as int) =~= v@);
}

fn write_vec32(out: &mut Vec<u8>, v: &Vec<i32>)
    ensures
        final(out)@ == old(out)@ + enc_vec32(v@),
{
    let ghost start = out@;
    let mut i: usize = 0;
    while i < v.len()
        invariant
            i <= v.len(),
            out@ == start + enc_vec32(v@.take(i as int)),
        decreases v.len() - i,
    {
        write_i32(out, v[i]);
        proof {
            let t = v@.take(i + 1);
            assert(t.drop_last() =~= v@.take(i as int));
            assert(out@ =~= start + enc_vec32(t));
        }
        i = i + 1;
    }
    assert(v@.take(i as int) =~= v@);
}

fn write_node(out: &mut Vec<u8>, x: &Node, len: usize)
    requires
        len <= MAX_COUNT,
        match *x {
            Node::Split { left, right, .. } => left < len && right < len,
            Node::Leaf { items } => items.len() <= LEAF_CAPACITY,
        },
    ensures
        final(out)@ == old(out)@ + enc_node(*x),
{
    let ghost start = out@;
    match x {
        Node::Split { normal, offset, left, right } => {
            out.push(0u8);
            write_vec32(out, normal);
            write_i64(out, *offset);
            write_count(out, *left);
            write_count(out, *right);
        },
        Node::Leaf { items } => {
            out.push(1u8);
            write_count(out, items.len());
            write_vec32(out, items);
        },
    }
    assert(out@ =~= start + enc_node(*x));
}

fn write_tree(out: &mut Vec<u8>, t: &Tree, dim: Ghost<nat>, dom: Ghost<Set<i32>>)
    requires
        t.wf(dim@, dom@),
        t.nodes.len() <= MAX_COUNT,
    ensures
        final(out)@ == old(out)@ + enc_tree(*t),
{
    let ghost start = out@;
    write_count(out, t.nodes.len());
    let mut i: usize = 0;
    while i < t.nodes.len()
        invariant
            t.wf(dim@, dom@),
            t.nodes.len() <= MAX_COUNT,
            i <= t.nodes.len(),
            out@ == start + enc_count(t.nodes.len() as nat) + enc_nodes(t.nodes@, i as nat),
        decreases t.nodes.len() - i,
    {
        proof {
            assert(node_wf(t.nodes@, i as int, dim@));
        }
        write_node(out, &t.nodes[i], t.nodes.len());
        i = i + 1;
    }
}

/// The saved form of `store` and `trees`.
pub fn encode(store: &VectorStore, trees: &Vec<Tree>) -> (r: Vec<u8>)
    requires
        store.wf(),
        trees_wf(trees@, store),
        fits_format(*store, trees@),
    ensures
        r@ == encoding(*store, trees@),
{
    proof {
        lemma_pow256_widths();
    }
    let mut out: Vec<u8> = Vec::new();
    write_u(&mut out, MAGIC as u64, 4);
    write_u(&mut out, VERSION as u64, 4);
    write_count(&mut out, store.dim);
    write_count(&mut out, store.ids.len());
    write_count(&mut out, trees.len());
    let ghost header = out@;
    assert(header =~= enc_header(store.dim as nat, store.ids.len() as nat, trees.len() as nat));
    let mut i: usize = 0;
    while i < store.ids.len()
        invariant
            store.wf(),
            i <= store.ids.len(),
            out@ == header + enc_items(store.ids@, store.vecs@, i as nat),
        decreases store.ids.len() - i,
    {
        write_i32(&mut out, store.ids[i]);
        write_vec16(&mut out, &store.vecs[i]);
        i = i + 1;
    }
    let ghost items = out@;
    let mut t: usize = 0;
    while t < trees.len()
        invariant
            store.wf(),
            trees_wf(trees@, store),
            fits_format(*store, trees@),
            t <= trees.len(),
            out@ == items + enc_trees(trees@, t as nat),
        decreases trees.len() - t,
    {
        proof {
            assert(trees@[t as int].wf(store.dim as nat, store@.dom()));
        }
        write_tree(&mut out, &trees[t], Ghost(store.dim as nat), Ghost(store@.dom()));
        t = t + 1;
    }
    out
}

proof fn lemma_enc_u_len(v: nat, w: nat)
    ensures
        enc_u(v, w).len() == w,
    decreases w,
{
    if w > 0 {
        lemma_enc_u_len(v / 256, (w - 1) as nat);
    }
}

proof fn lemma_i16_inj(x: i16, y: i16)
    requires
        enc_i16(x) == enc_i16(y),
    ensures
        x == y,
{
    lemma_pow256_widths();
    lemma_dec_enc((x + 32768) as nat, 2);
    lemma_dec_enc((y + 32768) as nat, 2);
}

proof fn lemma_i32_inj(x: i32, y: i32)
    requires
        enc_i32(x) == enc_i32(y),
    ensures
        x == y,
{
    lemma_pow256_widths();
    lemma_dec_enc(bits32(x), 4);
    lemma_dec_enc(bits32(y), 4);
}

proof fn lemma_i64_inj(x: i64, y: i64)
    requires
        enc_i64(x) == enc_i64(y),
    ensures
        x == y,
{
    lemma_pow256_widths();
    lemma_dec_enc((x + 9223372036854775808) as nat, 8);
    lemma_dec_enc((y + 9223372036854775808) as nat, 8);
}

proof fn lemma_count_inj(x: nat, y: nat)
    requires
        x <= MAX_COUNT,
        y <= MAX_COUNT,
        enc_count(x) == enc_count(y),
    ensures
        x == y,
{
    lemma_pow256_widths();
    lemma_dec_enc(x, 4);
    lemma_dec_enc(y, 4);
}

proof fn lemma_vec16_layout(s: Seq<i16>)
    ensures
        enc_vec16(s).len() == 2 * s.len(),
        forall|k: int| 0 <= k < s.len() ==> enc_vec16(s).subrange(2 * k, 2 * k + 2) == enc_i16(#[trigger] s[k]),
    decreases s.len(),
{
    if s.len() > 0 {
        let d = s.drop_last();
        lemma_vec16_layout(d);
        lemma_enc_u_len((s.last() + 32768) as nat, 2);
        assert forall|k: int| 0 <= k < s.len() implies enc_vec16(s).subrange(2 * k, 2 * k + 2) == enc_i16(#[trigger] s[k]) by {
            if k < d.len() {
                assert(enc_vec16(s).subrange(2 * k, 2 * k + 2) =~= enc_vec16(d).subrange(2 * k, 2 * k + 2));
                assert(d[k] == s[k]);
            } else {
                assert(enc_vec16(s).subrange(2 * k, 2 * k + 2) =~= enc_i16(s.last()));
            }
        }
    }
}

proof fn lemma_vec32_layout(s: Seq<i32>)
    ensures
        enc_vec32(s).len() == 4 * s.len(),
        forall|k: int| 0 <= k < s.len() ==> enc_vec32(s).subrange(4 * k, 4 * k + 4) == enc_i32(#[trigger] s[k]),
    decreases s.len(),
{
    if s.len() > 0 {
        let d = s.drop_last();
        lemma_vec32_layout(d);
        lemma_enc_u_len(bits32(s.last()), 4);
        assert forall|k: int| 0 <= k < s.len() implies enc_vec32(s).subrange(4 * k, 4 * k + 4) == enc_i32(#[trigger] s[k]) by {
            if k < d.len() {
                assert(enc_vec32(s).subrange(4 * k, 4 * k + 4) =~= enc_vec32(d).subrange(4 * k, 4 * k + 4));
                assert(d[k] == s[k]);
            } else {
                assert(enc_vec32(s).subrange(4 * k, 4 * k + 4) =~= enc_i32(s.last()));
            }
        }
    }
}

/// Where `b` holds `e` from `base`, it holds each part of `e` at the matching place.
proof fn lemma_sub(b: Seq<u8>, base: int, e: Seq<u8>, x: int, y: int)
    requires
        0 <= base,
        base + e.len() <= b.len(),
        b.subrange(base, base + e.len()) == e,
        0 <= x <= y <= e.len(),
    ensures
        b.subrange(base + x, base + y) == e.subrange(x, y),
{
    assert forall|i: int| 0 <= i < y - x implies b.subrange(base + x, base + y)[i] == e.subrange(x, y)[i] by {
        assert(e[x + i] == b.subrange(base, base + e.len())[x + i]);
    }
    assert(b.subrange(base + x, base + y) =~= e.subrange(x, y));
}

fn read_i16(b: &[u8], p: usize) -> (r: i16)
    requires
        p + 2 <= b@.len(),
    ensures
        b@.subrange(p as int, p + 2) == enc_i16(r),
{
    let v = read_u(b, p, 2);
    proof {
        lemma_pow256_widths();
        lemma_dec_bound(b@.subrange(p as int, p + 2));
        lemma_enc_dec(b@.subrange(p as int, p + 2));
    }
    (v as i32 - 32768) as i16
}

fn read_i32(b: &[u8], p: usize) -> (r: i32)
    requires
        p + 4 <= b@.len(),
    ensures
        b@.subrange(p as int, p + 4) == enc_i32(r),
{
    let v = read_u(b, p, 4);
    proof {
        lemma_pow256_widths();
        lemma_dec_bound(b@.subrange(p as int, p + 4));
        lemma_enc_dec(b@.subrange(p as int, p + 4));
    }
    if v < 2147483648 { v as i32 } else { (v as i64 - 4294967296) as i32 }
}

fn read_i64(b: &[u8], p: usize) -> (r: i64)
    requires
        p + 8 <= b@.len(),
    ensures
        b@.subrange(p as int, p + 8) == enc_i64(r),
{
    let v = read_u(b, p, 8);
    proof {
        lemma_pow256_widths();
        lemma_dec_bound(b@.subrange(p as int, p + 8));
        lemma_enc_dec(b@.subrange(p as int, p + 8));
    }
    (v as i128 - 9223372036854775808) as i64
}

fn read_count(b: &[u8], p: usize) -> (r: usize)
    requires
        p + 4 <= b@.len(),
    ensures
        b@.subrange(p as int, p + 4) == enc_count(r as nat),
        r <= MAX_COUNT,
{
    let v = read_u(b, p, 4);
    proof {
        lemma_pow256_widths();
        lemma_dec_bound(b@.subrange(p as int, p + 4));
        lemma_enc_dec(b@.subrange(p as int, p + 4));
    }
    v as usize
}

proof fn lemma_join(b: Seq<u8>, p: int, m: int, q: int)
    requires
        0 <= p <= m <= q <= b.len(),
    ensures
        b.subrange(p, q) == b.subrange(p, m) + b.subrange(m, q),
{
    assert(b.subrange(p, q) =~= b.subrange(p, m) + b.subrange(m, q));
}

fn read_vec16(b: &[u8], p: usize, n: usize, want: Ghost<Seq<i16>>) -> (r: Result<(Vec<i16>, usize), AnnError>)
    requires
        p <= b@.len(),
    ensures
        r is Err ==> r->Err_0 == AnnError::CorruptFile,
        r is Ok ==> {
            let (v, q) = r->Ok_0;
            &&& v.len() == n
            &&& p <= q <= b@.len()
            &&& b@.subrange(p as int, q as int) == enc_vec16(v@)
        },
        want@.len() == n && p + 2 * n <= b@.len() && b@.subrange(p as int, p + 2 * n) == enc_vec16(want@)
            ==> r is Ok && r->Ok_0.0@ == want@ && r->Ok_0.1 == p + 2 * n,
{
    let len = b.len();
    let mut v: Vec<i16> = Vec::new();
    let mut q: usize = p;
    while v.len() < n
        invariant
            len == b@.len(),
            p <= q <= len,
            v.len() <= n,
            b@.subrange(p as int, q as int) == enc_vec16(v@),
            want@.len() == n && p + 2 * n <= b@.len() && b@.subrange(p as int, p + 2 * n) == enc_vec16(want@)
                ==> v@ == want@.take(v.len() as int) && q == p + 2 * v.len(),
        decreases n - v.len(),
    {
        if len - q < 2 {
            return Err(AnnError::CorruptFile);
        }
        let x = read_i16(b, q);
        let ghost v0 = v@;
        v.push(x);
        proof {
            lemma_join(b@, p as int, q as int, q + 2);
            assert(v@.drop_last() =~= v0);
            if want@.len() == n && p + 2 * n <= b@.len() && b@.subrange(p as int, p + 2 * n) == enc_vec16(want@) {
                let k = v0.len() as int;
                lemma_vec16_layout(want@);
                lemma_sub(b@, p as int, enc_vec16(want@), 2 * k, 2 * k + 2);
                lemma_i16_inj(x, want@[k]);
                assert(v@ =~= want@.take(v.len() as int));
            }
        }
        q = q + 2;
    }
    proof {
        if want@.len() == n {
            assert(want@.take(n as int) =~= want@);
        }
    }
    Ok((v, q))
}

fn read_vec32(b: &[u8], p: usize, n: usize, want: Ghost<Seq<i32>>) -> (r: Result<(Vec<i32>, usize), AnnError>)
    requires
        p <= b@.len(),
    ensures
        r is Err ==> r->Err_0 == AnnError::CorruptFile,
        r is Ok ==> {
            let (v, q) = r->Ok_0;
            &&& v.len() == n
            &&& p <= q <= b@.len()
            &&& b@.subrange(p as int, q as int) == enc_vec32(v@)
        },
        want@.len() == n && p + 4 * n <= b@.len() && b@.subrange(p as int, p + 4 * n) == enc_vec32(want@)
            ==> r is Ok && r->Ok_0.0@ == want@ && r->Ok_0.1 == p + 4 * n,
{
    let len = b.len();
    let mut v: Vec<i32> = Vec::new();
    let mut q: usize = p;
    while v.len() < n
        invariant
            len == b@.len(),
            p <= q <= len,
            v.len() <= n,
            b@.subrange(p as int, q as int) == enc_vec32(v@),
            want@.len() == n && p + 4 * n <= b@.len() && b@.subrange(p as int, p + 4 * n) == enc_vec32(want@)
                ==> v@ == want@.take(v.len() as int) && q == p + 4 * v.len(),
        decreases n - v.len(),
    {
        if len - q < 4 {
            return Err(AnnError::CorruptFile);
        }
        let x = read_i32(b, q);
        let ghost v0 = v@;
        v.push(x);
        proof {
            lemma_join(b@, p as int, q as int, q + 4);
            assert(v@.drop_last() =~= v0);
            if want@.len() == n && p + 4 * n <= b@.len() && b@.subrange(p as int, p + 4 * n) == enc_vec32(want@) {
                let k = v0.len() as int;
                lemma_vec32_layout(want@);
                lemma_sub(b@, p as int, enc_vec32(want@), 4 * k, 4 * k + 4);
                lemma_i32_inj(x, want@[k]);
                assert(v@ =~= want@.take(v.len() as int));
            }
        }
        q = q + 4;
    }
    proof {
        if want@.len() == n {
            assert(want@.take(n as int) =~= want@);
        }
    }
    Ok((v, q))
}

/// Whether every coordinate of `w` lies within a normal's bounds.
fn normal_in_bounds(w: &Vec<i32>) -> (r: bool)
    ensures
        r == normal_bounded(w@),
{
    let mut i: usize = 0;
    while i < w.len()
        invariant
            i <= w.len(),
            forall|j: int| 0 <= j < i ==> -65536 <= #[trigger] w@[j] <= 65536,
        decreases w.len() - i,
    {
        if w[i] < -65536 || w[i] > 65536 {
            return false;
        }
        i = i + 1;
    }
    true
}

/// Node `x` may stand at index `idx` of an arena over `store`.
pub open spec fn node_fits(x: Node, idx: nat, store: VectorStore) -> bool {
    match x {
        Node::Split { normal, offset, left, right } => {
            &&& left < idx
            &&& right < idx
            &&& normal@.len() == store.dim
            &&& normal_bounded(normal@)
            &&& -MAX_OFFSET <= offset <= MAX_OFFSET
        },
        Node::Leaf { items } => {
            &&& items.len() <= LEAF_CAPACITY
            &&& forall|k: int| 0 <= k < items.len() ==> store@.contains_key(#[trigger] items@[k])
        },
    }
}

/// `b` holds the encoding `e` from position `p`.
pub open spec fn holds_at(b: Seq<u8>, p: int, e: Seq<u8>) -> bool {
    &&& 0 <= p
    &&& p + e.len() <= b.len()
    &&& b.subrange(p, p + e.len()) == e
}

/// Node number `idx` of an arena, read from position `p`.
fn read_node(b: &[u8], p: usize, store: &VectorStore, idx: usize, want: Ghost<Node>) -> (r: Result<(Node, usize), AnnError>)
    requires
        store.wf(),
        p <= b@.len(),
    ensures
        r is Err ==> r->Err_0 == AnnError::CorruptFile,
        r is Ok ==> {
            let (x, q) = r->Ok_0;
            &&& p <= q <= b@.len()
            &&& b@.subrange(p as int, q as int) == enc_node(x)
            &&& node_fits(x, idx as nat, *store)
        },
        idx <= MAX_COUNT && node_fits(want@, idx as nat, *store) && holds_at(b@, p as int, enc_node(want@))
            ==> r is Ok && r->Ok_0.1 == p + enc_node(want@).len(),
{
    let ghost e = enc_node(want@);
    let ghost exp = idx <= MAX_COUNT && node_fits(want@, idx as nat, *store) && holds_at(b@, p as int, e);
    proof {
        lemma_pow256_widths();
        if exp {
            match want@ {
                Node::Split { normal, offset, left, right } => {
                    lemma_vec32_layout(normal@);
                    lemma_enc_u_len((offset + 9223372036854775808) as nat, 8);
                    lemma_enc_u_len(left as nat, 4);
                    lemma_enc_u_len(right as nat, 4);
                },
                Node::Leaf { items } => {
                    lemma_vec32_layout(items@);
                    lemma_enc_u_len(items.len() as nat, 4);
                },
            }
            lemma_sub(b@, p as int, e, 0, 1);
            assert(b@.subrange(p as int, p + 1)[0] == b@[p as int]);
        }
    }
    let len = b.len();
    if len - p < 1 {
        return Err(AnnError::CorruptFile);
    }
    let tag = b[p];
    if tag == 0 {
        let ghost wn: Seq<i32> = match want@ {
            Node::Split { normal, .. } => normal@,
            Node::Leaf { .. } => Seq::empty(),
        };
        proof {
            if exp {
                let d = store.dim as int;
                lemma_sub(b@, p as int, e, 1, 1 + 4 * d);
                assert(e.subrange(1, 1 + 4 * d) =~= enc_vec32(wn));
            }
        }
        let (normal, q1) = read_vec32(b, p + 1, store.dim, Ghost(wn))?;
        if !normal_in_bounds(&normal) || len - q1 < 16 {
            return Err(AnnError::CorruptFile);
        }
        let offset = read_i64(b, q1);
        let left = read_count(b, q1 + 8);
        let right = read_count(b, q1 + 12);
        proof {
            if exp {
                let d = store.dim as int;
                match want@ {
                    Node::Split { normal: n0, offset: o0, left: l0, right: r0 } => {
                        lemma_sub(b@, p as int, e, 1 + 4 * d, 9 + 4 * d);
                        assert(e.subrange(1 + 4 * d, 9 + 4 * d) =~= enc_i64(o0));
                        lemma_i64_inj(offset, o0);
                        lemma_sub(b@, p as int, e, 9 + 4 * d, 13 + 4 * d);
                        assert(e.subrange(9 + 4 * d, 13 + 4 * d) =~= enc_count(l0 as nat));
                        lemma_count_inj(left as nat, l0 as nat);
                        lemma_sub(b@, p as int, e, 13 + 4 * d, 17 + 4 * d);
                        assert(e.subrange(13 + 4 * d, 17 + 4 * d) =~= enc_count(r0 as nat));
                        lemma_count_inj(right as nat, r0 as nat);
                    },
                    Node::Leaf { .. } => {},
                }
            }
        }
        if offset < -MAX_OFFSET || offset > MAX_OFFSET || left >= idx || right >= idx {
            return Err(AnnError::CorruptFile);
        }
        let x = Node::Split { normal, offset, left, right };
        proof {
            assert(b@.subrange(p as int, p + 1) =~= seq![0u8]);
            lemma_join(b@, p as int, p + 1, q1 as int);
            lemma_join(b@, p as int, q1 as int, q1 + 8);
            lemma_join(b@, p as int, q1 + 8, q1 + 12);
            lemma_join(b@, p as int, q1 + 12, q1 + 16);
            assert(b@.subrange(p as int, q1 + 16) =~= enc_node(x));
        }
        Ok((x, q1 + 16))
    } else if tag == 1 {
        if len - p < 5 {
            return Err(AnnError::CorruptFile);
        }
        let count = read_count(b, p + 1);
        let ghost wi: Seq<i32> = match want@ {
            Node::Leaf { items } => items@,
            Node::Split { .. } => Seq::empty(),
        };
        proof {
            if exp {
                lemma_sub(b@, p as int, e, 1, 5);
                assert(e.subrange(1, 5) =~= enc_count(wi.len()));
                lemma_count_inj(count as nat, wi.len());
                lemma_sub(b@, p as int, e, 5, 5 + 4 * (wi.len() as int));
                assert(e.subrange(5, 5 + 4 * (wi.len() as int)) =~= enc_vec32(wi));
            }
        }
        if count > LEAF_CAPACITY {
            return Err(AnnError::CorruptFile);
        }
        let (items, q) = read_vec32(b, p + 5, count, Ghost(wi))?;
        let mut k: usize = 0;
        while k < items.len()
            invariant
                store.wf(),
                k <= items.len(),
                forall|j: int| 0 <= j < k ==> store@.contains_key(#[trigger] items@[j]),
                exp == (idx <= MAX_COUNT && node_fits(want@, idx as nat, *store) && holds_at(b@, p as int, enc_node(want@))),
                exp ==> items@ == wi,
                exp ==> forall|j: int| 0 <= j < wi.len() ==> store@.contains_key(#[trigger] wi[j]),
            decreases items.len() - k,
        {
            match store.find(items[k]) {
                None => {
                    proof {
                        if exp {
                            assert(items@[k as int] == wi[k as int]);
                        }
                    }
                    return Err(AnnError::CorruptFile);
                },
                Some(j) => {
                    proof {
                        store.lemma_view_at(j as int);
                    }
                },
            }
            k = k + 1;
        }
        let x = Node::Leaf { items };
        proof {
            assert(b@.subrange(p as int, p + 1) =~= seq![1u8]);
            lemma_join(b@, p as int, p + 1, p + 5);
            lemma_join(b@, p as int, p + 5, q as int);
            assert(b@.subrange(p as int, q as int) =~= enc_node(x));
        }
        Ok((x, q))
    } else {
        Err(AnnError::CorruptFile)
    }
}

/// A tree read from position `p`; its root is its last node.
fn read_tree(b: &[u8], p: usize, store: &VectorStore, want: Ghost<Tree>) -> (r: Result<(Tree, usize), AnnError>)
    requires
        store.wf(),
        p <= b@.len(),
    ensures
        r is Err ==> r->Err_0 == AnnError::CorruptFile,
        r is Ok ==> {
            let (t, q) = r->Ok_0;
            &&& p <= q <= b@.len()
            &&& b@.subrange(p as int, q as int) == enc_tree(t)
            &&& t.wf(store.dim as nat, store@.dom())
            &&& t.root == t.nodes.len() - 1
            &&& t.nodes.len() <= MAX_COUNT
        },
        tree_fits(want@, *store) && holds_at(b@, p as int, enc_tree(want@))
            ==> r is Ok && r->Ok_0.1 == p + enc_tree(want@).len(),
{
    let ghost w = want@.nodes@;
    let ghost big_n = w.len();
    let ghost e = enc_tree(want@);
    let ghost exp = tree_fits(want@, *store) && holds_at(b@, p as int, e);
    proof {
        if exp {
            lemma_enc_u_len(big_n, 4);
            lemma_sub(b@, p as int, e, 0, 4);
            assert(e.subrange(0, 4) =~= enc_count(big_n));
        }
    }
    let len = b.len();
    if len - p < 4 {
        return Err(AnnError::CorruptFile);
    }
    let n = read_count(b, p);
    proof {
        if exp {
            lemma_count_inj(n as nat, big_n);
        }
    }
    if n == 0 {
        return Err(AnnError::CorruptFile);
    }
    let mut nodes: Vec<Node> = Vec::new();
    let mut q: usize = p + 4;
    while nodes.len() < n
        invariant
            store.wf(),
            len == b@.len(),
            p + 4 <= q <= len,
            nodes.len() <= n,
            n <= MAX_COUNT,
            b@.subrange(p as int, p + 4) == enc_count(n as nat),
            b@.subrange(p + 4, q as int) == enc_nodes(nodes@, nodes.len() as nat),
            forall|i: int| 0 <= i < nodes.len() ==> #[trigger] node_wf(nodes@, i, store.dim as nat),
            leaves_in(nodes@, store@.dom()),
            exp == (tree_fits(want@, *store) && holds_at(b@, p as int, enc_tree(want@))),
            w == want@.nodes@,
            big_n == w.len(),
            e == enc_tree(want@),
            exp ==> n == w.len() && q == p + 4 + enc_nodes(w, nodes.len() as nat).len(),
        decreases n - nodes.len(),
    {
        let ghost k = nodes.len() as int;
        let ghost x_want = w[k];
        proof {
            if exp {
                let t0 = want@;
                assert(node_wf(w, k, store.dim as nat));
                if x_want is Leaf {
                    assert forall|j: int| 0 <= j < x_want->Leaf_items.len() implies store@.contains_key(
                        #[trigger] x_want->Leaf_items@[j],
                    ) by {
                        assert(store@.dom().contains(w[k]->Leaf_items@[j]));
                    }
                }
                let ek = enc_nodes(w, k as nat);
                let ek1 = enc_nodes(w, (k + 1) as nat);
                let en = enc_nodes(w, big_n);
                lemma_nodes_prefix(w, big_n, (k + 1) as nat);
                lemma_enc_u_len(big_n, 4);
                assert(ek1 == ek + enc_node(x_want));
                lemma_sub(b@, p as int, e, 4 + ek.len() as int, 4 + ek1.len() as int);
                assert(e.subrange(4 + ek.len() as int, 4 + ek1.len() as int) =~= en.subrange(ek.len() as int, ek1.len() as int));
                assert(en.subrange(ek.len() as int, ek1.len() as int) =~= ek1.subrange(ek.len() as int, ek1.len() as int));
                assert(ek1.subrange(ek.len() as int, ek1.len() as int) =~= enc_node(x_want));
            }
        }
        let (x, q2) = read_node(b, q, store, nodes.len(), Ghost(x_want))?;
        let ghost n0 = nodes@;
        nodes.push(x);
        proof {
            lemma_join(b@, p + 4, q as int, q2 as int);
            assert(nodes@.drop_last() =~= n0);
            lemma_enc_nodes_prefix(n0, nodes@, n0.len());
            assert forall|i: int| 0 <= i < nodes.len() implies #[trigger] node_wf(nodes@, i, store.dim as nat) by {
                if i < n0.len() {
                    assert(node_wf(n0, i, store.dim as nat));
                }
            }
            assert forall|i: int, k: int|
                0 <= i < nodes.len() && (#[trigger] nodes@[i]) is Leaf && 0 <= k < nodes@[i]->Leaf_items.len()
                    implies store@.dom().contains(#[trigger] nodes@[i]->Leaf_items@[k]) by {
                if i < n0.len() {
                    assert(nodes@[i] == n0[i]);
                }
            }
        }
        q = q2;
    }
    let t = Tree { nodes, root: n - 1 };
    proof {
        lemma_join(b@, p as int, p + 4, q as int);
    }
    Ok((t, q))
}

proof fn lemma_items_prefix(ids: Seq<i32>, vecs: Seq<Vec<i16>>, n: nat, k: nat)
    requires
        k <= n,
    ensures
        enc_items(ids, vecs, k).len() <= enc_items(ids, vecs, n).len(),
        enc_items(ids, vecs, n).subrange(0, enc_items(ids, vecs, k).len() as int) == enc_items(ids, vecs, k),
    decreases n,
{
    if k < n {
        lemma_items_prefix(ids, vecs, (n - 1) as nat, k);
        let m = enc_items(ids, vecs, k).len() as int;
        assert(enc_items(ids, vecs, n).subrange(0, m) =~= enc_items(ids, vecs, (n - 1) as nat).subrange(0, m));
    } else {
        assert(enc_items(ids, vecs, n).subrange(0, enc_items(ids, vecs, n).len() as int) =~= enc_items(ids, vecs, n));
    }
}

proof fn lemma_trees_prefix(trees: Seq<Tree>, n: nat, k: nat)
    requires
        k <= n,
    ensures
        enc_trees(trees, k).len() <= enc_trees(trees, n).len(),
        enc_trees(trees, n).subrange(0, enc_trees(trees, k).len() as int) == enc_trees(trees, k),
    decreases n,
{
    if k < n {
        lemma_trees_prefix(trees, (n - 1) as nat, k);
        let m = enc_trees(trees, k).len() as int;
        assert(enc_trees(trees, n).subrange(0, m) =~= enc_trees(trees, (n - 1) as nat).subrange(0, m));
    } else {
        assert(enc_trees(trees, n).subrange(0, enc_trees(trees, n).len() as int) =~= enc_trees(trees, n));
    }
}

proof fn lemma_vec32_inj(a: Seq<i32>, b: Seq<i32>)
    requires
        a.len() == b.len(),
        enc_vec32(a) == enc_vec32(b),
    ensures
        a == b,
{
    lemma_vec32_layout(a);
    lemma_vec32_layout(b);
    assert forall|k: int| 0 <= k < a.len() implies a[k] == b[k] by {
        lemma_i32_inj(a[k], b[k]);
    }
    assert(a =~= b);
}

proof fn lemma_vec16_inj(a: Seq<i16>, b: Seq<i16>)
    requires
        a.len() == b.len(),
        enc_vec16(a) == enc_vec16(b),
    ensures
        a == b,
{
    lemma_vec16_layout(a);
    lemma_vec16_layout(b);
    assert forall|k: int| 0 <= k < a.len() implies a[k] == b[k] by {
        lemma_i16_inj(a[k], b[k]);
    }
    assert(a =~= b);
}

/// Where two nodes of the same dimensionality are encoded at the same place,
/// they are the same node.
proof fn lemma_node_unique(z: Seq<u8>, off: int, x0: Node, x1: Node, dim: nat)
    requires
        holds_at(z, off, enc_node(x0)),
        holds_at(z, off, enc_node(x1)),
        x0 is Split ==> x0->Split_normal@.len() == dim && x0->Split_left <= MAX_COUNT && x0->Split_right <= MAX_COUNT,
        x1 is Split ==> x1->Split_normal@.len() == dim && x1->Split_left <= MAX_COUNT && x1->Split_right <= MAX_COUNT,
        x0 is Leaf ==> x0->Leaf_items.len() <= MAX_COUNT,
        x1 is Leaf ==> x1->Leaf_items.len() <= MAX_COUNT,
    ensures
        node_view(x0) == node_view(x1),
        enc_node(x0).len() == enc_node(x1).len(),
{
    let e0 = enc_node(x0);
    let e1 = enc_node(x1);
    lemma_pow256_widths();
    lemma_sub(z, off, e0, 0, 1);
    lemma_sub(z, off, e1, 0, 1);
    assert(e0.subrange(0, 1)[0] == e0[0]);
    assert(e1.subrange(0, 1)[0] == e1[0]);
    match x0 {
        Node::Split { normal: n0, offset: o0, left: l0, right: r0 } => {
            match x1 {
                Node::Split { normal: n1, offset: o1, left: l1, right: r1 } => {
                    let d = dim as int;
                    lemma_vec32_layout(n0@);
                    lemma_vec32_layout(n1@);
                    lemma_enc_u_len((o0 + 9223372036854775808) as nat, 8);
                    lemma_enc_u_len((o1 + 9223372036854775808) as nat, 8);
                    lemma_enc_u_len(l0 as nat, 4);
                    lemma_enc_u_len(l1 as nat, 4);
                    lemma_enc_u_len(r0 as nat, 4);
                    lemma_enc_u_len(r1 as nat, 4);
                    lemma_sub(z, off, e0, 1, 1 + 4 * d);
                    lemma_sub(z, off, e1, 1, 1 + 4 * d);
                    assert(e0.subrange(1, 1 + 4 * d) =~= enc_vec32(n0@));
                    assert(e1.subrange(1, 1 + 4 * d) =~= enc_vec32(n1@));
                    lemma_vec32_inj(n0@, n1@);
                    lemma_sub(z, off, e0, 1 + 4 * d, 9 + 4 * d);
                    lemma_sub(z, off, e1, 1 + 4 * d, 9 + 4 * d);
                    assert(e0.subrange(1 + 4 * d, 9 + 4 * d) =~= enc_i64(o0));
                    assert(e1.subrange(1 + 4 * d, 9 + 4 * d) =~= enc_i64(o1));
                    lemma_i64_inj(o0, o1);
                    lemma_sub(z, off, e0, 9 + 4 * d, 13 + 4 * d);
                    lemma_sub(z, off, e1, 9 + 4 * d, 13 + 4 * d);
                    assert(e0.subrange(9 + 4 * d, 13 + 4 * d) =~= enc_count(l0 as nat));
                    assert(e1.subrange(9 + 4 * d, 13 + 4 * d) =~= enc_count(l1 as nat));
                    lemma_count_inj(l0 as nat, l1 as nat);
                    lemma_sub(z, off, e0, 13 + 4 * d, 17 + 4 * d);
                    lemma_sub(z, off, e1, 13 + 4 * d, 17 + 4 * d);
                    assert(e0.subrange(13 + 4 * d, 17 + 4 * d) =~= enc_count(r0 as nat));
                    assert(e1.subrange(13 + 4 * d, 17 + 4 * d) =~= enc_count(r1 as nat));
                    lemma_count_inj(r0 as nat, r1 as nat);
                },
                Node::Leaf { .. } => {},
            }
        },
        Node::Leaf { items: i0 } => {
            match x1 {
                Node::Leaf { items: i1 } => {
                    lemma_enc_u_len(i0.len() as nat, 4);
                    lemma_enc_u_len(i1.len() as nat, 4);
                    lemma_vec32_layout(i0@);
                    lemma_vec32_layout(i1@);
                    lemma_sub(z, off, e0, 1, 5);
                    lemma_sub(z, off, e1, 1, 5);
                    assert(e0.subrange(1, 5) =~= enc_count(i0.len() as nat));
                    assert(e1.subrange(1, 5) =~= enc_count(i1.len() as nat));
                    lemma_count_inj(i0.len() as nat, i1.len() as nat);
                    let m = 5 + 4 * (i0.len() as int);
                    lemma_sub(z, off, e0, 5, m);
                    lemma_sub(z, off, e1, 5, m);
                    assert(e0.subrange(5, m) =~= enc_vec32(i0@));
                    assert(e1.subrange(5, m) =~= enc_vec32(i1@));
                    lemma_vec32_inj(i0@, i1@);
                },
                Node::Split { .. } => {},
            }
        },
    }
}

proof fn lemma_holds_split(z: Seq<u8>, off: int, a: Seq<u8>, b: Seq<u8>)
    requires
        holds_at(z, off, a + b),
    ensures
        holds_at(z, off, a),
        holds_at(z, off + a.len(), b),
{
    lemma_sub(z, off, a + b, 0, a.len() as int);
    lemma_sub(z, off, a + b, a.len() as int, (a + b).len() as int);
    assert((a + b).subrange(0, a.len() as int) =~= a);
    assert((a + b).subrange(a.len() as int, (a + b).len() as int) =~= b);
}

/// The first `n` nodes have the shape that the layout reads back.
pub open spec fn nodes_sized(w: Seq<Node>, n: nat, dim: nat) -> bool {
    forall|j: int|
        0 <= j < n ==> {
            &&& (#[trigger] w[j]) is Split ==> w[j]->Split_normal@.len() == dim && w[j]->Split_left <= MAX_COUNT
                && w[j]->Split_right <= MAX_COUNT
            &&& w[j] is Leaf ==> w[j]->Leaf_items.len() <= MAX_COUNT
        }
}

proof fn lemma_nodes_unique(z: Seq<u8>, off: int, w0: Seq<Node>, w1: Seq<Node>, n: nat, dim: nat)
    requires
        n <= w0.len(),
        n <= w1.len(),
        nodes_sized(w0, n, dim),
        nodes_sized(w1, n, dim),
        holds_at(z, off, enc_nodes(w0, n)),
        holds_at(z, off, enc_nodes(w1, n)),
    ensures
        forall|j: int| 0 <= j < n ==> node_view(#[trigger] w0[j]) == node_view(w1[j]),
        enc_nodes(w0, n).len() == enc_nodes(w1, n).len(),
    decreases n,
{
    if n > 0 {
        let m = (n - 1) as nat;
        lemma_holds_split(z, off, enc_nodes(w0, m), enc_node(w0[m as int]));
        lemma_holds_split(z, off, enc_nodes(w1, m), enc_node(w1[m as int]));
        lemma_nodes_unique(z, off, w0, w1, m, dim);
        let l = enc_nodes(w0, m).len() as int;
        assert(w0[m as int] is Split ==> w0[m as int]->Split_normal@.len() == dim);
        assert(w1[m as int] is Split ==> w1[m as int]->Split_normal@.len() == dim);
        lemma_node_unique(z, off + l, w0[m as int], w1[m as int], dim);
    }
}

proof fn lemma_node_wf_sized(w: Seq<Node>, dim: nat, dom: Set<i32>)
    requires
        arena_wf(w, dim, dom),
        w.len() <= MAX_COUNT,
    ensures
        nodes_sized(w, w.len(), dim),
{
    assert forall|j: int| 0 <= j < w.len() implies {
        &&& (#[trigger] w[j]) is Split ==> w[j]->Split_normal@.len() == dim && w[j]->Split_left <= MAX_COUNT
            && w[j]->Split_right <= MAX_COUNT
        &&& w[j] is Leaf ==> w[j]->Leaf_items.len() <= MAX_COUNT
    } by {
        assert(node_wf(w, j, dim));
    }
}

/// Where two trees over vectors of one dimensionality are encoded at the
/// same place, their arenas hold the same nodes.
proof fn lemma_tree_unique(z: Seq<u8>, off: int, t0: Tree, t1: Tree, dim: nat, dom0: Set<i32>, dom1: Set<i32>)
    requires
        t0.wf(dim, dom0),
        t1.wf(dim, dom1),
        t0.nodes.len() <= MAX_COUNT,
        t1.nodes.len() <= MAX_COUNT,
        holds_at(z, off, enc_tree(t0)),
        holds_at(z, off, enc_tree(t1)),
    ensures
        t0.nodes.len() == t1.nodes.len(),
        forall|j: int| 0 <= j < t0.nodes.len() ==> node_view(#[trigger] t0.nodes@[j]) == node_view(t1.nodes@[j]),
        enc_tree(t0).len() == enc_tree(t1).len(),
{
    let n0 = t0.nodes.len() as nat;
    let n1 = t1.nodes.len() as nat;
    lemma_holds_split(z, off, enc_count(n0), enc_nodes(t0.nodes@, n0));
    lemma_holds_split(z, off, enc_count(n1), enc_nodes(t1.nodes@, n1));
    lemma_enc_u_len(n0, 4);
    lemma_enc_u_len(n1, 4);
    lemma_sub(z, off, enc_count(n0), 0, 4);
    lemma_sub(z, off, enc_count(n1), 0, 4);
    assert(enc_count(n0).subrange(0, 4) =~= enc_count(n0));
    assert(enc_count(n1).subrange(0, 4) =~= enc_count(n1));
    lemma_count_inj(n0, n1);
    lemma_node_wf_sized(t0.nodes@, dim, dom0);
    lemma_node_wf_sized(t1.nodes@, dim, dom1);
    lemma_nodes_unique(z, off + 4, t0.nodes@, t1.nodes@, n0, dim);
}

proof fn lemma_trees_unique(z: Seq<u8>, off: int, ts0: Seq<Tree>, ts1: Seq<Tree>, n: nat, s0: VectorStore, s1: VectorStore)
    requires
        n <= ts0.len(),
        n <= ts1.len(),
        s0.dim == s1.dim,
        forall|t: int| 0 <= t < ts0.len() ==> tree_fits(#[trigger] ts0[t], s0),
        forall|t: int| 0 <= t < ts1.len() ==> tree_fits(#[trigger] ts1[t], s1),
        holds_at(z, off, enc_trees(ts0, n)),
        holds_at(z, off, enc_trees(ts1, n)),
    ensures
        forall|t: int| 0 <= t < n ==> (#[trigger] ts0[t]).nodes.len() == ts1[t].nodes.len(),
        forall|t: int, j: int|
            0 <= t < n && 0 <= j < ts0[t].nodes.len() ==> node_view(#[trigger] ts0[t].nodes@[j]) == node_view(ts1[t].nodes@[j]),
        enc_trees(ts0, n).len() == enc_trees(ts1, n).len(),
    decreases n,
{
    if n > 0 {
        let m = (n - 1) as nat;
        lemma_holds_split(z, off, enc_trees(ts0, m), enc_tree(ts0[m as int]));
        lemma_holds_split(z, off, enc_trees(ts1, m), enc_tree(ts1[m as int]));
        lemma_trees_unique(z, off, ts0, ts1, m, s0, s1);
        let l = enc_trees(ts0, m).len() as int;
        assert(tree_fits(ts0[m as int], s0));
        assert(tree_fits(ts1[m as int], s1));
        lemma_tree_unique(z, off + l, ts0[m as int], ts1[m as int], s0.dim as nat, s0@.dom(), s1@.dom());
    }
}

proof fn lemma_items_unique(z: Seq<u8>, off: int, s0: VectorStore, s1: VectorStore, n: nat)
    requires
        s0.wf(),
        s1.wf(),
        s0.dim == s1.dim,
        n <= s0.ids.len(),
        n <= s1.ids.len(),
        holds_at(z, off, enc_items(s0.ids@, s0.vecs@, n)),
        holds_at(z, off, enc_items(s1.ids@, s1.vecs@, n)),
    ensures
        forall|j: int| 0 <= j < n ==> #[trigger] s0.ids@[j] == s1.ids@[j] && s0.vecs@[j]@ == s1.vecs@[j]@,
        enc_items(s0.ids@, s0.vecs@, n).len() == enc_items(s1.ids@, s1.vecs@, n).len(),
    decreases n,
{
    if n > 0 {
        let m = (n - 1) as nat;
        let k = m as int;
        let a0 = enc_items(s0.ids@, s0.vecs@, m);
        let a1 = enc_items(s1.ids@, s1.vecs@, m);
        lemma_holds_split(z, off, a0 + enc_i32(s0.ids@[k]), enc_vec16(s0.vecs@[k]@));
        lemma_holds_split(z, off, a1 + enc_i32(s1.ids@[k]), enc_vec16(s1.vecs@[k]@));
        lemma_holds_split(z, off, a0, enc_i32(s0.ids@[k]));
        lemma_holds_split(z, off, a1, enc_i32(s1.ids@[k]));
        lemma_items_unique(z, off, s0, s1, m);
        let l = a0.len() as int;
        lemma_enc_u_len(bits32(s0.ids@[k]), 4);
        lemma_enc_u_len(bits32(s1.ids@[k]), 4);
        lemma_i32_inj(s0.ids@[k], s1.ids@[k]);
        lemma_vec16_layout(s0.vecs@[k]@);
        lemma_vec16_layout(s1.vecs@[k]@);
        lemma_vec16_inj(s0.vecs@[k]@, s1.vecs@[k]@);
    }
}

/// Two stores with trees that have the same saved form hold the same items,
/// in the same order, and trees with the same nodes.
pub proof fn lemma_encoding_unique(s0: VectorStore, ts0: Seq<Tree>, s1: VectorStore, ts1: Seq<Tree>)
    requires
        saved_ok(s0, ts0),
        saved_ok(s1, ts1),
        encoding(s0, ts0) == encoding(s1, ts1),
    ensures
        s0.dim == s1.dim,
        s0.ids@ == s1.ids@,
        forall|j: int| 0 <= j < s0.vecs.len() ==> (#[trigger] s0.vecs@[j])@ == s1.vecs@[j]@,
        ts0.len() == ts1.len(),
        forall|t: int| 0 <= t < ts0.len() ==> (#[trigger] ts0[t]).nodes.len() == ts1[t].nodes.len(),
        forall|t: int, j: int|
            0 <= t < ts0.len() && 0 <= j < ts0[t].nodes.len() ==> node_view(#[trigger] ts0[t].nodes@[j]) == node_view(ts1[t].nodes@[j]),
{
    let z = encoding(s0, ts0);
    let h0 = enc_header(s0.dim as nat, s0.ids.len() as nat, ts0.len());
    let h1 = enc_header(s1.dim as nat, s1.ids.len() as nat, ts1.len());
    let i0 = enc_items(s0.ids@, s0.vecs@, s0.ids.len() as nat);
    let i1 = enc_items(s1.ids@, s1.vecs@, s1.ids.len() as nat);
    let e0 = enc_trees(ts0, ts0.len());
    let e1 = enc_trees(ts1, ts1.len());
    lemma_pow256_widths();
    lemma_enc_u_len(MAGIC as nat, 4);
    lemma_enc_u_len(VERSION as nat, 4);
    lemma_enc_u_len(s0.dim as nat, 4);
    lemma_enc_u_len(s1.dim as nat, 4);
    lemma_enc_u_len(s0.ids.len() as nat, 4);
    lemma_enc_u_len(s1.ids.len() as nat, 4);
    lemma_enc_u_len(ts0.len(), 4);
    lemma_enc_u_len(ts1.len(), 4);
    assert(z.subrange(8, 12) =~= enc_count(s0.dim as nat));
    assert(z.subrange(8, 12) =~= enc_count(s1.dim as nat));
    assert(z.subrange(12, 16) =~= enc_count(s0.ids.len() as nat));
    assert(z.subrange(12, 16) =~= enc_count(s1.ids.len() as nat));
    assert(z.subrange(16, 20) =~= enc_count(ts0.len()));
    assert(z.subrange(16, 20) =~= enc_count(ts1.len()));
    lemma_count_inj(s0.dim as nat, s1.dim as nat);
    lemma_count_inj(s0.ids.len() as nat, s1.ids.len() as nat);
    lemma_count_inj(ts0.len(), ts1.len());
    assert(z.subrange(0, z.len() as int) =~= z);
    assert(z == h0 + i0 + e0);
    assert(z == h1 + i1 + e1);
    lemma_holds_split(z, 0, h0 + i0, e0);
    lemma_holds_split(z, 0, h1 + i1, e1);
    lemma_holds_split(z, 0, h0, i0);
    lemma_holds_split(z, 0, h1, i1);
    lemma_items_unique(z, 20, s0, s1, s0.ids.len() as nat);
    assert(s0.ids@ =~= s1.ids@);
    assert forall|j: int| 0 <= j < s0.vecs.len() implies (#[trigger] s0.vecs@[j])@ == s1.vecs@[j]@ by {
        assert(s0.ids@[j] == s1.ids@[j]);
    }
    lemma_trees_unique(z, 20 + (i0.len() as int), ts0, ts1, ts0.len(), s0, s1);
}

/// A store and trees that `save` can write and `decode` reads back.
pub open spec fn saved_ok(s: VectorStore, ts: Seq<Tree>) -> bool {
    &&& s.wf()
    &&& fits_format(s, ts)
    &&& forall|t: int| 0 <= t < ts.len() ==> tree_fits(#[trigger] ts[t], s)
}

/// Tree `t` may stand in a forest over `store`.
pub open spec fn tree_fits(t: Tree, store: VectorStore) -> bool {
    &&& t.wf(store.dim as nat, store@.dom())
    &&& t.nodes.len() <= MAX_COUNT
}

proof fn lemma_nodes_prefix(nodes: Seq<Node>, n: nat, k: nat)
    requires
        k <= n,
    ensures
        enc_nodes(nodes, k).len() <= enc_nodes(nodes, n).len(),
        enc_nodes(nodes, n).subrange(0, enc_nodes(nodes, k).len() as int) == enc_nodes(nodes, k),
    decreases n,
{
    if k < n {
        lemma_nodes_prefix(nodes, (n - 1) as nat, k);
        let m = enc_nodes(nodes, k).len() as int;
        assert(enc_nodes(nodes, n).subrange(0, m) =~= enc_nodes(nodes, (n - 1) as nat).subrange(0, m));
    } else {
        assert(enc_nodes(nodes, n).subrange(0, enc_nodes(nodes, n).len() as int) =~= enc_nodes(nodes, n));
    }
}

proof fn lemma_enc_nodes_prefix(a: Seq<Node>, b: Seq<Node>, n: nat)
    requires
        n <= a.len(),
        n <= b.len(),
        forall|j: int| 0 <= j < n ==> a[j] == b[j],
    ensures
        enc_nodes(a, n) == enc_nodes(b, n),
    decreases n,
{
    if n > 0 {
        lemma_enc_nodes_prefix(a, b, (n - 1) as nat);
    }
}

proof fn lemma_enc_trees_prefix(a: Seq<Tree>, b: Seq<Tree>, n: nat)
    requires
        n <= a.len(),
        n <= b.len(),
        forall|j: int| 0 <= j < n ==> a[j] == b[j],
    ensures
        enc_trees(a, n) == enc_trees(b, n),
    decreases n,
{
    if n > 0 {
        lemma_enc_trees_prefix(a, b, (n - 1) as nat);
    }
}

proof fn lemma_enc_items_prefix(ia: Seq<i32>, va: Seq<Vec<i16>>, ib: Seq<i32>, vb: Seq<Vec<i16>>, n: nat)
    requires
        n <= ia.len(),
        n <= ib.len(),
        n <= va.len(),
        n <= vb.len(),
        forall|j: int| 0 <= j < n ==> #[trigger] ia[j] == ib[j],
        forall|j: int| 0 <= j < n ==> (#[trigger] va[j])@ == vb[j]@,
    ensures
        enc_items(ia, va, n) == enc_items(ib, vb, n),
    decreases n,
{
    if n > 0 {
        lemma_enc_items_prefix(ia, va, ib, vb, (n - 1) as nat);
        assert(ia[n - 1] == ib[n - 1]);
        assert(va[n - 1]@ == vb[n - 1]@);
    }
}

/// The bytes begin with the magic number and another version.
pub open spec fn version_differs(b: Seq<u8>) -> bool {
    &&& b.len() >= 8
    &&& b.subrange(0, 4) == enc_u(MAGIC as nat, 4)
    &&& b.subrange(4, 8) != enc_u(VERSION as nat, 4)
}

/// The store and trees that the bytes `b` hold.
pub fn decode(b: &[u8]) -> (r: Result<(VectorStore, Vec<Tree>), AnnError>)
    ensures
        r == Err::<(VectorStore, Vec<Tree>), AnnError>(AnnError::VersionMismatch) <==> version_differs(b@),
        b@.len() < 8 || b@.subrange(0, 4) != enc_u(MAGIC as nat, 4)
            ==> r == Err::<(VectorStore, Vec<Tree>), AnnError>(AnnError::CorruptFile),
        r is Err ==> r == Err::<(VectorStore, Vec<Tree>), AnnError>(AnnError::VersionMismatch)
            || r == Err::<(VectorStore, Vec<Tree>), AnnError>(AnnError::CorruptFile),
        r is Ok ==> {
            let (s, ts) = r->Ok_0;
            &&& s.wf()
            &&& trees_wf(ts@, &s)
            &&& fits_format(s, ts@)
            &&& forall|t: int| 0 <= t < ts.len() ==> (#[trigger] ts@[t]).root == ts@[t].nodes.len() - 1
            &&& encoding(s, ts@) == b@
        },
        (exists|s0: VectorStore, ts0: Seq<Tree>| #[trigger] encoding(s0, ts0) == b@ && saved_ok(s0, ts0)) ==> r is Ok,
{
    let ghost exp = exists|s0: VectorStore, ts0: Seq<Tree>| #[trigger] encoding(s0, ts0) == b@ && saved_ok(s0, ts0);
    let ghost (s0, ts0) = if exp {
        choose|s0: VectorStore, ts0: Seq<Tree>| #[trigger] encoding(s0, ts0) == b@ && saved_ok(s0, ts0)
    } else {
        arbitrary()
    };
    let ghost ni = s0.ids.len() as nat;
    let ghost nt = ts0.len();
    let ghost hi = enc_header(s0.dim as nat, ni, nt);
    let ghost ei = enc_items(s0.ids@, s0.vecs@, ni);
    let ghost et = enc_trees(ts0, nt);
    let len = b.len();
    proof {
        lemma_pow256_widths();
        if exp {
            lemma_enc_u_len(MAGIC as nat, 4);
            lemma_enc_u_len(VERSION as nat, 4);
            lemma_enc_u_len(s0.dim as nat, 4);
            lemma_enc_u_len(ni, 4);
            lemma_enc_u_len(nt, 4);
            assert(b@ == hi + ei + et);
            assert(b@.subrange(0, 4) =~= enc_u(MAGIC as nat, 4));
            assert(b@.subrange(4, 8) =~= enc_u(VERSION as nat, 4));
            assert(b@.subrange(8, 12) =~= enc_count(s0.dim as nat));
            assert(b@.subrange(12, 16) =~= enc_count(ni));
            assert(b@.subrange(16, 20) =~= enc_count(nt));
            assert(b@.subrange(0, 20) =~= hi);
        }
    }
    if len < 8 {
        return Err(AnnError::CorruptFile);
    }
    let magic = read_u(b, 0, 4);
    let version = read_u(b, 4, 4);
    proof {
        lemma_enc_dec(b@.subrange(0, 4));
        lemma_enc_dec(b@.subrange(4, 8));
        crate::bytes::lemma_dec_enc(MAGIC as nat, 4);
        crate::bytes::lemma_dec_enc(VERSION as nat, 4);
    }
    if magic != MAGIC as u64 {
        return Err(AnnError::CorruptFile);
    }
    if version != VERSION as u64 {
        return Err(AnnError::VersionMismatch);
    }
    if len < 20 {
        return Err(AnnError::CorruptFile);
    }
    let dim = read_count(b, 8);
    let n_items = read_count(b, 12);
    let n_trees = read_count(b, 16);
    proof {
        if exp {
            lemma_count_inj(dim as nat, s0.dim as nat);
            lemma_count_inj(n_items as nat, ni);
            lemma_count_inj(n_trees as nat, nt);
        }
    }
    if dim > MAX_DIM {
        return Err(AnnError::CorruptFile);
    }
    proof {
        lemma_join(b@, 0, 4, 8);
        lemma_join(b@, 0, 8, 12);
        lemma_join(b@, 0, 12, 16);
        lemma_join(b@, 0, 16, 20);
        assert(b@.subrange(0, 20) =~= enc_header(dim as nat, n_items as nat, n_trees as nat));
    }
    let mut ids: Vec<i32> = Vec::new();
    let mut vecs: Vec<Vec<i16>> = Vec::new();
    let mut p: usize = 20;
    while ids.len() < n_items
        invariant
            b@.len() >= 8,
            b@.subrange(0, 4) == enc_u(MAGIC as nat, 4),
            !version_differs(b@),
            len == b@.len(),
            20 <= p <= len,
            dim <= MAX_DIM,
            ids.len() == vecs.len(),
            ids.len() <= n_items,
            ids@.no_duplicates(),
            forall|i: int| 0 <= i < vecs.len() ==> (#[trigger] vecs@[i])@.len() == dim,
            b@.subrange(20, p as int) == enc_items(ids@, vecs@, ids.len() as nat),
            exp == (exists|s1: VectorStore, ts1: Seq<Tree>| #[trigger] encoding(s1, ts1) == b@ && saved_ok(s1, ts1)),
            exp ==> saved_ok(s0, ts0) && b@ == hi + ei + et && hi.len() == 20,
            ni == s0.ids.len(),
            ei == enc_items(s0.ids@, s0.vecs@, ni),
            exp ==> n_items == ni && dim == s0.dim,
            exp ==> ids@ == s0.ids@.take(ids.len() as int),
            exp ==> forall|i: int| 0 <= i < ids.len() ==> (#[trigger] vecs@[i])@ == s0.vecs@[i]@,
            exp ==> p == 20 + enc_items(s0.ids@, s0.vecs@, ids.len() as nat).len(),
        decreases n_items - ids.len(),
    {
        let ghost k = ids.len() as int;
        proof {
            if exp {
                let ek = enc_items(s0.ids@, s0.vecs@, k as nat);
                let ek1 = enc_items(s0.ids@, s0.vecs@, (k + 1) as nat);
                lemma_items_prefix(s0.ids@, s0.vecs@, ni, (k + 1) as nat);
                lemma_enc_u_len(bits32(s0.ids@[k]), 4);
                lemma_vec16_layout(s0.vecs@[k]@);
                assert(s0.vecs@[k]@.len() == dim);
                assert(ek1 == ek + enc_i32(s0.ids@[k]) + enc_vec16(s0.vecs@[k]@));
                let whole = b@;
                let a = ek.len() as int;
                let c = ek1.len() as int;
                assert(whole.subrange(20, 20 + (ei.len() as int)) =~= ei);
                assert(ei.subrange(0, c) == ek1);
                lemma_sub(whole, 20, ei, a, a + 4);
                lemma_sub(ei, 0, ek1, a, a + 4);
                assert(ek1.subrange(a, a + 4) =~= enc_i32(s0.ids@[k]));
                lemma_sub(whole, 20, ei, a + 4, c);
                lemma_sub(ei, 0, ek1, a + 4, c);
                assert(ek1.subrange(a + 4, c) =~= enc_vec16(s0.vecs@[k]@));
            }
        }
        if len - p < 4 {
            return Err(AnnError::CorruptFile);
        }
        let id = read_i32(b, p);
        proof {
            if exp {
                lemma_i32_inj(id, s0.ids@[k]);
                if ids@.contains(id) {
                    let j = choose|j: int| 0 <= j < ids.len() && ids@[j] == id;
                    assert(s0.ids@[j] == s0.ids@[k]);
                }
            }
        }
        if contains_id(&ids, id) {
            return Err(AnnError::CorruptFile);
        }
        let (v, q) = read_vec16(b, p + 4, dim, Ghost(s0.vecs@[k]@))?;
        let ghost (i0, v0) = (ids@, vecs@);
        ids.push(id);
        vecs.push(v);
        proof {
            lemma_join(b@, 20, p as int, p + 4);
            lemma_join(b@, 20, p + 4, q as int);
            lemma_enc_items_prefix(i0, v0, ids@, vecs@, i0.len());
            if exp {
                assert(ids@ =~= s0.ids@.take(ids.len() as int));
                lemma_vec16_layout(v@);
            }
        }
        p = q;
    }
    let store = VectorStore { dim, ids, vecs };
    proof {
        if exp {
            assert(store.ids@ =~= s0.ids@);
            store.lemma_dom_len();
            s0.lemma_dom_len();
        }
    }
    let mut trees: Vec<Tree> = Vec::new();
    let ghost p_items = p;
    while trees.len() < n_trees
        invariant
            b@.len() >= 8,
            b@.subrange(0, 4) == enc_u(MAGIC as nat, 4),
            !version_differs(b@),
            store.wf(),
            len == b@.len(),
            p_items <= p <= len,
            trees.len() <= n_trees,
            n_trees <= MAX_COUNT,
            trees_wf(trees@, &store),
            forall|t: int| 0 <= t < trees.len() ==> (#[trigger] trees@[t]).root == trees@[t].nodes.len() - 1
                && trees@[t].nodes.len() <= MAX_COUNT,
            b@.subrange(p_items as int, p as int) == enc_trees(trees@, trees.len() as nat),
            exp == (exists|s1: VectorStore, ts1: Seq<Tree>| #[trigger] encoding(s1, ts1) == b@ && saved_ok(s1, ts1)),
            exp ==> saved_ok(s0, ts0) && b@ == hi + ei + et && p_items == hi.len() + ei.len(),
            nt == ts0.len(),
            et == enc_trees(ts0, nt),
            exp ==> n_trees == nt && store.dim == s0.dim && store@.dom() == s0@.dom(),
            exp ==> p == p_items + enc_trees(ts0, trees.len() as nat).len(),
        decreases n_trees - trees.len(),
    {
        let ghost k = trees.len() as int;
        proof {
            if exp {
                let ek = enc_trees(ts0, k as nat);
                let ek1 = enc_trees(ts0, (k + 1) as nat);
                lemma_trees_prefix(ts0, nt, (k + 1) as nat);
                assert(tree_fits(ts0[k], s0));
                assert(ek1 == ek + enc_tree(ts0[k]));
                let whole = b@;
                let a = ek.len() as int;
                let c = ek1.len() as int;
                let base = p_items as int;
                assert(whole.subrange(base, base + (et.len() as int)) =~= et);
                assert(et.subrange(0, c) == ek1);
                lemma_sub(whole, base, et, a, c);
                lemma_sub(et, 0, ek1, a, c);
                assert(ek1.subrange(a, c) =~= enc_tree(ts0[k]));
            }
        }
        let (t, q) = read_tree(b, p, &store, Ghost(ts0[k]))?;
        let ghost t0 = trees@;
        trees.push(t);
        proof {
            lemma_join(b@, p_items as int, p as int, q as int);
            lemma_enc_trees_prefix(t0, trees@, t0.len());
            assert(trees@[t0.len() as int] == t);
        }
        p = q;
    }
    proof {
        if exp {
            assert(trees.len() == nt);
        }
    }
    if p != len {
        return Err(AnnError::CorruptFile);
    }
    proof {
        lemma_join(b@, 0, 20, p_items as int);
        lemma_join(b@, 0, p_items as int, p as int);
        assert(b@.subrange(0, len as int) =~= b@);
    }
    Ok((store, trees))
}

} // verus!
