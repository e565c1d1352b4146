//! Approximate nearest-neighbour search under angular distance.
//!
//! Items are vectors of `i16` fixed-point coordinates under `i32`
//! identifiers. `build` grows a forest of random-projection trees over them;
//! a query walks all trees at once, most promising split first, gathers
//! candidates, and ranks them exactly by cosine similarity, with every
//! comparison done in integer arithmetic. `save` and `load` turn the index
//! into bytes and back.
pub mod bytes;
pub mod codec;
pub mod rank;
pub mod rng;
pub mod search;
pub mod store;
pub mod tree;
pub mod vector;

use vstd::prelude::*;
use crate::codec::{
    decode, encode, encoding, encoding_v, fits_format, lemma_encoding_v, lemma_encoding_unique, saved_ok, tree_fits, version_differs,
    MAX_COUNT, MAGIC,
};
use crate::bytes::enc_u;
use crate::rank::{is_top, lemma_more_candidates_keep_neighbours, lemma_top_unique, top_k};
use crate::search::{candidates_spec, collect_candidates, forest_items, forest_view, lemma_run_mono, roots_spec, trees_wf};
use crate::store::VectorStore;
use crate::tree::{arena_view, build_spec, build_tree, Tree};
use crate::rng::stream_spec;
use crate::vector::MAX_DIM;

verus! {

/// What an operation of the index can fail with.
#[derive(Debug, Clone, Copy, PartialEq, Eq, Structural)]
pub enum AnnError {
    /// A vector's length differs from the index's dimensionality.
    InvalidDimension,
    /// No item is stored under the identifier.
    ItemNotFound,
    /// The index was queried before any build or load.
    NotBuilt,
    /// Saved bytes that do not describe an index.
    CorruptFile,
    /// Saved bytes of another format version.
    VersionMismatch,
    /// Reading or writing the file failed, or the index is too large for
    /// the saved layout.
    IOFailure,
}

/// Seed of a new index.
pub const DEFAULT_SEED: u32 = 0;

/// The number of results asked for: a negative count asks for none.
pub open spec fn wanted(n: i32) -> int {
    if n < 0 { 0 } else { n as int }
}

/// Least number of candidates gathered: `search_k` where it is not negative,
/// else `n * n_trees`, saturated at the largest `usize`.
pub open spec fn budget(n: i32, search_k: i32, n_trees: int) -> int {
    if search_k >= 0 {
        search_k as int
    } else if wanted(n) * n_trees > usize::MAX {
        usize::MAX as int
    } else {
        wanted(n) * n_trees
    }
}

/// An approximate nearest-neighbour index under angular distance: a store of
/// vectors with fixed-point coordinates and a forest of random-projection trees.
pub struct Rannoy {
    store: VectorStore,
    trees: Vec<Tree>,
    built: bool,
    seed: u32,
}

/// Saving loses nothing: two indexes with the same saved form have the same
/// dimensionality, the same items and the same trees. So loading the saved
/// form of an index gives back that index's items and forest.
pub proof fn lemma_saved_form_determines(x: Rannoy, y: Rannoy)
    requires
        x.wf(),
        y.wf(),
        x.fits(),
        y.fits(),
        x.saved_form() == y.saved_form(),
    ensures
        x.dim() == y.dim(),
        x.items() == y.items(),
        x.forest() == y.forest(),
{
    x.lemma_saved_ok();
    y.lemma_saved_ok();
    lemma_encoding_v(x.store, x.trees@);
    lemma_encoding_v(y.store, y.trees@);
    lemma_encoding_unique(x.store, x.trees@, y.store, y.trees@);
    assert forall|id: i32| #[trigger] x.store@.contains_key(id) implies y.store@.contains_key(id) && x.store@[id] == y.store@[id] by {
        let i = choose|i: int| 0 <= i < x.store.ids.len() && x.store.ids@[i] == id;
        x.store.lemma_view_at(i);
        y.store.lemma_view_at(i);
    }
    assert forall|id: i32| #[trigger] y.store@.contains_key(id) implies x.store@.contains_key(id) by {
        let i = choose|i: int| 0 <= i < y.store.ids.len() && y.store.ids@[i] == id;
        y.store.lemma_view_at(i);
        x.store.lemma_view_at(i);
    }
    assert(x.store@ =~= y.store@);
    assert forall|t: int| 0 <= t < x.trees.len() implies x.forest()[t] =~= y.forest()[t] by {
        assert(x.trees@[t].nodes.len() == y.trees@[t].nodes.len());
    }
    assert(x.forest() =~= y.forest());
}

/// Queries are determined by the index and their arguments: two indexes
/// with the same items and the same forest answer a query for `q` with the
/// same ids whenever the two budgets agree. So a repeated query gives the
/// same result, a query by item equals the query by its stored vector, a
/// `search_k` of -1 equals one of `n * n_trees`, and an index loaded from
/// the saved form of another answers as that one does.
pub proof fn lemma_query_determined(
    x: Rannoy,
    y: Rannoy,
    q: Seq<i16>,
    n: i32,
    s1: i32,
    s2: i32,
    r1: Seq<i32>,
    r2: Seq<i32>,
)
    requires
        x.items() == y.items(),
        x.forest() == y.forest(),
        budget(n, s1, x.n_trees() as int) == budget(n, s2, y.n_trees() as int),
        is_top(q, x.items(), x.candidates(q, n, s1), wanted(n), r1),
        is_top(q, y.items(), y.candidates(q, n, s2), wanted(n), r2),
    ensures
        r1 == r2,
{
    assert(x.n_trees() == x.forest().len());
    assert(y.n_trees() == y.forest().len());
    lemma_top_unique(q, x.items(), x.candidates(q, n, s1), wanted(n), r1, r2);
}

/// Recall never drops as `search_k` grows: let `t` be the exact best `n` of
/// all stored items `all` for `q`, and `r1`, `r2` the answers of `x` for the
/// budgets of `s1` and `s2`. If the first budget is at most the second, every
/// item of `t` that `r1` holds, `r2` holds as well.
pub proof fn lemma_recall_grows(
    x: Rannoy,
    q: Seq<i16>,
    n: i32,
    s1: i32,
    s2: i32,
    r1: Seq<i32>,
    r2: Seq<i32>,
    all: Seq<i32>,
    t: Seq<i32>,
)
    requires
        budget(n, s1, x.n_trees() as int) <= budget(n, s2, x.n_trees() as int),
        forall|j: int| 0 <= j < x.candidates(q, n, s2).len() ==> all.contains(#[trigger] x.candidates(q, n, s2)[j]),
        is_top(q, x.items(), x.candidates(q, n, s1), wanted(n), r1),
        is_top(q, x.items(), x.candidates(q, n, s2), wanted(n), r2),
        is_top(q, x.items(), all, wanted(n), t),
    ensures
        forall|y: i32| r1.contains(y) && t.contains(y) ==> r2.contains(y),
{
    let f = x.forest();
    let c1 = x.candidates(q, n, s1);
    let c2 = x.candidates(q, n, s2);
    assert forall|y: i32| c1.contains(y) implies c2.contains(y) by {
        lemma_run_mono(
            f,
            q,
            budget(n, s1, x.n_trees() as int),
            budget(n, s2, x.n_trees() as int),
            roots_spec(f),
            Seq::empty(),
            y,
        );
    }
    assert forall|y: i32| c2.contains(y) implies all.contains(y) by {
        let j = choose|j: int| 0 <= j < c2.len() && c2[j] == y;
    }
    lemma_more_candidates_keep_neighbours(q, x.items(), all, c1, c2, wanted(n), r1, r2, t);
}

/// Building is deterministic: two indexes with the same items, added in the
/// same order, and the same seed build the same forest; so building twice
/// without a change in between gives the same trees.
pub proof fn lemma_build_determined(x: Rannoy, y: Rannoy, n: i32)
    requires
        x.dim() == y.dim(),
        x.items() == y.items(),
        x.item_order() == y.item_order(),
        x.seed() == y.seed(),
    ensures
        x.built_forest(n) == y.built_forest(n),
{
    assert(x.built_forest(n) =~= y.built_forest(n));
}

impl Rannoy {
    proof fn lemma_saved_ok(&self)
        requires
            self.wf(),
            self.fits(),
        ensures
            saved_ok(self.store, self.trees@),
    {
        assert forall|t: int| 0 <= t < self.trees@.len() implies tree_fits(#[trigger] self.trees@[t], self.store) by {
            assert(self.trees@[t].wf(self.store.dim as nat, self.store@.dom()));
        }
    }

    pub closed spec fn wf(&self) -> bool {
        &&& self.store.wf()
        &&& trees_wf(self.trees@, &self.store)
        &&& forall|t: int| 0 <= t < self.trees.len() ==> (#[trigger] self.trees@[t]).root == self.trees@[t].nodes.len() - 1
    }

    /// The nodes of each tree, in arena order; a tree's root is its last node.
    pub closed spec fn forest(&self) -> Seq<Seq<(bool, Seq<i32>, i64, usize, usize)>> {
        forest_view(self.trees@)
    }

    /// The candidates that a query for `q` gathers with the budget of `n`
    /// and `search_k`: the walk of `candidates_spec` over the forest.
    pub closed spec fn candidates(&self, q: Seq<i16>, n: i32, search_k: i32) -> Seq<i32> {
        candidates_spec(self.forest(), q, budget(n, search_k, self.n_trees() as int))
    }

    /// The stored identifiers in the order in which they were first added.
    pub closed spec fn item_order(&self) -> Seq<i32> {
        self.store.ids@
    }

    /// The forest that `build(n)` makes from the current items and seed.
    pub closed spec fn built_forest(&self, n: i32) -> Seq<Seq<(bool, Seq<i32>, i64, usize, usize)>> {
        let count: nat = if self.store.ids.len() == 0 || n < 0 { 0 } else { n as nat };
        Seq::new(
            count,
            |t: int|
                build_spec(
                    self.store@,
                    self.store.dim as nat,
                    self.store.ids@,
                    Seq::empty(),
                    stream_spec(self.seed, t as u32),
                    0,
                ).0,
        )
    }

    /// The stored vectors by identifier.
    pub closed spec fn items(&self) -> Map<i32, Seq<i16>> {
        self.store@
    }

    pub closed spec fn dim(&self) -> nat {
        self.store.dim as nat
    }

    pub closed spec fn seed(&self) -> u32 {
        self.seed
    }

    /// Whether a build or load has happened.
    pub closed spec fn is_built(&self) -> bool {
        self.built
    }

    pub closed spec fn n_trees(&self) -> nat {
        self.trees@.len()
    }

    /// The items that the trees hold.
    pub closed spec fn indexed(&self) -> Set<i32> {
        forest_items(self.trees@)
    }

    /// There is at least one tree, and the trees together hold exactly the
    /// stored items.
    pub open spec fn indexes_all(&self) -> bool {
        &&& self.n_trees() >= 1
        &&& self.indexed() == self.items().dom()
    }

    /// An empty, unbuilt index for vectors of `n` coordinates.
    pub fn new(n: usize) -> (r: Self)
        requires
            n <= MAX_DIM,
        ensures
            r.wf(),
            r.dim() == n,
            r.items() == Map::<i32, Seq<i16>>::empty(),
            !r.is_built(),
            r.n_trees() == 0,
            r.seed() == DEFAULT_SEED,
    {
        Rannoy { store: VectorStore::new(n), trees: Vec::new(), built: false, seed: DEFAULT_SEED }
    }

    /// Stores `w` under `item`, replacing what was stored there. The trees
    /// stay as they are until the next build.
    pub fn add_item(&mut self, item: i32, w: &[i16]) -> (r: Result<(), AnnError>)
        requires
            old(self).wf(),
        ensures
            final(self).wf(),
            final(self).dim() == old(self).dim(),
            final(self).is_built() == old(self).is_built(),
            final(self).n_trees() == old(self).n_trees(),
            final(self).seed() == old(self).seed(),
            r is Err <==> w@.len() != old(self).dim(),
            final(self).forest() == old(self).forest(),
            r is Err ==> r == Err::<(), AnnError>(AnnError::InvalidDimension) && *final(self) == *old(self),
            r is Ok ==> final(self).items() == old(self).items().insert(item, w@),
    {
        if w.len() != self.store.dim {
            return Err(AnnError::InvalidDimension);
        }
        let mut v: Vec<i16> = Vec::new();
        let mut i: usize = 0;
        while i < w.len()
            invariant
                i <= w.len(),
                v@ == w@.take(i as int),
            decreases w.len() - i,
        {
            v.push(w[i]);
            i = i + 1;
            assert(v@ =~= w@.take(i as int));
        }
        assert(w@.take(i as int) =~= w@);
        let ghost old_dom = self.store@.dom();
        self.store.insert(item, v);
        proof {
            assert forall|t: int| 0 <= t < self.trees.len() implies (#[trigger] self.trees@[t]).wf(
                self.store.dim as nat,
                self.store@.dom(),
            ) by {
                assert(self.trees@[t].wf(self.store.dim as nat, old_dom));
            }
        }
        Ok(())
    }

    /// Sets the seed of the next build.
    pub fn set_seed(&mut self, q: u32)
        requires
            old(self).wf(),
        ensures
            final(self).wf(),
            final(self).seed() == q,
            final(self).items() == old(self).items(),
            final(self).dim() == old(self).dim(),
            final(self).is_built() == old(self).is_built(),
            final(self).n_trees() == old(self).n_trees(),
            final(self).indexed() == old(self).indexed(),
            final(self).item_order() == old(self).item_order(),
            final(self).forest() == old(self).forest(),
    {
        self.seed = q;
    }

    /// Replaces the trees by `n` new ones over every stored item (none where
    /// `n` is not positive or nothing is stored).
    pub fn build(&mut self, n: i32)
        requires
            old(self).wf(),
        ensures
            final(self).wf(),
            final(self).is_built(),
            final(self).items() == old(self).items(),
            final(self).dim() == old(self).dim(),
            final(self).seed() == old(self).seed(),
            final(self).n_trees() == (if old(self).items().dom().len() == 0 { 0 } else { wanted(n) }),
            final(self).n_trees() > 0 ==> final(self).indexes_all(),
            final(self).item_order() == old(self).item_order(),
            final(self).forest() == old(self).built_forest(n),
    {
        let ghost pre = *self;
        let mut trees: Vec<Tree> = Vec::new();
        let count: u32 = if n < 0 || self.store.ids.len() == 0 { 0 } else { n as u32 };
        proof {
            self.store.lemma_dom_len();
        }
        let mut t: u32 = 0;
        while t < count
            invariant
                self.store.wf(),
                t <= count,
                trees.len() == t,
                forall|k: int| 0 <= k < t ==> (#[trigger] trees@[k]).wf(self.store.dim as nat, self.store@.dom())
                    && trees@[k].items() == self.store@.dom() && trees@[k].root == trees@[k].nodes.len() - 1
                    && arena_view(trees@[k].nodes@) == build_spec(
                        self.store@,
                        self.store.dim as nat,
                        self.store.ids@,
                        Seq::empty(),
                        stream_spec(self.seed, k as u32),
                        0,
                    ).0,
            decreases count - t,
        {
            let tree = build_tree(&self.store, self.seed, t);
            trees.push(tree);
            t = t + 1;
        }
        self.trees = trees;
        self.built = true;
        proof {
            assert(self.forest() =~= pre.built_forest(n));
            if count > 0 {
                assert(self.trees@[0].items() == self.store@.dom());
                assert(forest_items(self.trees@) =~= self.store@.dom()) by {
                    assert forall|x: i32| forest_items(self.trees@).contains(x) implies self.store@.dom().contains(x) by {
                        let k = choose|k: int| 0 <= k < self.trees.len() && (#[trigger] self.trees@[k]).items().contains(x);
                    }
                    assert forall|x: i32| self.store@.dom().contains(x) implies forest_items(self.trees@).contains(x) by {
                        assert(self.trees@[0].items().contains(x));
                    }
                }
            }
        }
    }

    /// The bytes that `save` writes.
    pub open spec fn saved_form(&self) -> Seq<u8> {
        encoding_v(self.dim(), self.item_order(), self.items(), self.forest())
    }

    /// Every count of the index fits the saved layout.
    pub closed spec fn fits(&self) -> bool {
        fits_format(self.store, self.trees@)
    }

    /// The saved form of the index; `Err(IOFailure)` where a count exceeds
    /// the layout's 32 bits.
    pub fn save(&self) -> (r: Result<Vec<u8>, AnnError>)
        requires
            self.wf(),
        ensures
            r is Ok <==> self.fits(),
            r is Ok ==> r->Ok_0@ == self.saved_form(),
            r is Err ==> r->Err_0 == AnnError::IOFailure,
    {
        if self.store.ids.len() > MAX_COUNT || self.trees.len() > MAX_COUNT {
            return Err(AnnError::IOFailure);
        }
        let mut t: usize = 0;
        while t < self.trees.len()
            invariant
                t <= self.trees.len(),
                forall|k: int| 0 <= k < t ==> (#[trigger] self.trees@[k]).nodes.len() <= MAX_COUNT,
            decreases self.trees.len() - t,
        {
            if self.trees[t].nodes.len() > MAX_COUNT {
                return Err(AnnError::IOFailure);
            }
            t = t + 1;
        }
        proof {
            lemma_encoding_v(self.store, self.trees@);
        }
        Ok(encode(&self.store, &self.trees))
    }

    /// Replaces the stored items and the trees by those that `bytes` hold,
    /// with their dimensionality. On an error nothing changes.
    pub fn load(&mut self, bytes: &[u8]) -> (r: Result<(), AnnError>)
        requires
            old(self).wf(),
        ensures
            final(self).wf(),
            final(self).seed() == old(self).seed(),
            r is Err ==> *final(self) == *old(self),
            r == Err::<(), AnnError>(AnnError::VersionMismatch) <==> version_differs(bytes@),
            bytes@.len() < 8 || bytes@.subrange(0, 4) != enc_u(MAGIC as nat, 4)
                ==> r == Err::<(), AnnError>(AnnError::CorruptFile),
            r is Err ==> r->Err_0 == AnnError::VersionMismatch || r->Err_0 == AnnError::CorruptFile,
            r is Ok ==> final(self).is_built() && final(self).fits() && final(self).saved_form() == bytes@,
            (exists|x: Rannoy| x.wf() && x.fits() && #[trigger] x.saved_form() == bytes@) ==> r is Ok,
            forall|x: Rannoy|
                x.wf() && x.fits() && #[trigger] x.saved_form() == bytes@ ==> {
                    &&& final(self).dim() == x.dim()
                    &&& final(self).items() == x.items()
                    &&& final(self).forest() == x.forest()
                },
    {
        proof {
            if exists|x: Rannoy| x.wf() && x.fits() && #[trigger] x.saved_form() == bytes@ {
                let x = choose|x: Rannoy| x.wf() && x.fits() && #[trigger] x.saved_form() == bytes@;
                x.lemma_saved_ok();
                lemma_encoding_v(x.store, x.trees@);
                assert(encoding(x.store, x.trees@) == bytes@ && saved_ok(x.store, x.trees@));
            }
        }
        match decode(bytes) {
            Ok((store, trees)) => {
                self.store = store;
                self.trees = trees;
                self.built = true;
                proof {
                    lemma_encoding_v(self.store, self.trees@);
                    assert forall|x: Rannoy| x.wf() && x.fits() && #[trigger] x.saved_form() == bytes@ implies {
                        &&& self.dim() == x.dim()
                        &&& self.items() == x.items()
                        &&& self.forest() == x.forest()
                    } by {
                        lemma_saved_form_determines(*self, x);
                    }
                }
                Ok(())
            },
            Err(e) => Err(e),
        }
    }

    /// The vector stored under `item`.
    pub fn get_item(&self, item: i32) -> (r: Result<Vec<i16>, AnnError>)
        requires
            self.wf(),
        ensures
            r is Err <==> !self.items().contains_key(item),
            r is Err ==> r == Err::<Vec<i16>, AnnError>(AnnError::ItemNotFound),
            r is Ok ==> r->Ok_0@ == self.items()[item],
    {
        match self.store.get(item) {
            Some(v) => {
                let mut out: Vec<i16> = Vec::new();
                let mut i: usize = 0;
                while i < v.len()
                    invariant
                        i <= v.len(),
                        out@ == v@.take(i as int),
                    decreases v.len() - i,
                {
                    out.push(v[i]);
                    i = i + 1;
                    assert(out@ =~= v@.take(i as int));
                }
                assert(v@.take(i as int) =~= v@);
                Ok(out)
            },
            None => Err(AnnError::ItemNotFound),
        }
    }

    /// The identifiers of the `n` nearest items to `w` in angular distance,
    /// nearest first, ties by smaller identifier, out of the candidates that
    /// the trees yield for a budget of `search_k` (see `budget`).
    pub fn get_nns_by_vector(&self, w: &Vec<i16>, n: i32, search_k: i32) -> (r: Result<Vec<i32>, AnnError>)
        requires
            self.wf(),
        ensures
            r is Err <==> !self.is_built() || w@.len() != self.dim(),
            !self.is_built() ==> r == Err::<Vec<i32>, AnnError>(AnnError::NotBuilt),
            self.is_built() && w@.len() != self.dim() ==> r == Err::<Vec<i32>, AnnError>(AnnError::InvalidDimension),
            r is Ok ==> ({
                let c = self.candidates(w@, n, search_k);
                &&& c.no_duplicates()
                &&& forall|j: int| 0 <= j < c.len() ==> self.items().contains_key(#[trigger] c[j])
                &&& c.len() < budget(n, search_k, self.n_trees() as int)
                    ==> forall|x: i32| #[trigger] self.indexed().contains(x) ==> c.contains(x)
                &&& is_top(w@, self.items(), c, wanted(n), r->Ok_0@)
            }),
            r is Ok && self.n_trees() == 0 ==> r->Ok_0@.len() == 0,
            r is Ok && self.indexes_all() && budget(n, search_k, self.n_trees() as int) >= self.items().dom().len()
                ==> r->Ok_0@.len() == (if wanted(n) < self.items().dom().len() { wanted(n) } else { self.items().dom().len() as int }),
            r is Ok && self.indexes_all() && budget(n, search_k, self.n_trees() as int) >= self.items().dom().len()
                && wanted(n) >= self.items().dom().len() ==> forall|x: i32|
                #[trigger] self.items().contains_key(x) ==> r->Ok_0@.contains(x),
    {
        if !self.built {
            return Err(AnnError::NotBuilt);
        }
        if w.len() != self.store.dim {
            return Err(AnnError::InvalidDimension);
        }
        self.search(w, n, search_k)
    }

    fn search(&self, w: &Vec<i16>, n: i32, search_k: i32) -> (r: Result<Vec<i32>, AnnError>)
        requires
            self.wf(),
            w@.len() == self.dim(),
        ensures
            r is Ok,
            ({
                let c = self.candidates(w@, n, search_k);
                &&& c.no_duplicates()
                &&& forall|j: int| 0 <= j < c.len() ==> self.items().contains_key(#[trigger] c[j])
                &&& c.len() < budget(n, search_k, self.n_trees() as int)
                    ==> forall|x: i32| #[trigger] self.indexed().contains(x) ==> c.contains(x)
                &&& is_top(w@, self.items(), c, wanted(n), r->Ok_0@)
            }),
            self.n_trees() == 0 ==> r->Ok_0@.len() == 0,
            self.indexes_all() && budget(n, search_k, self.n_trees() as int) >= self.items().dom().len()
                ==> r->Ok_0@.len() == (if wanted(n) < self.items().dom().len() { wanted(n) } else { self.items().dom().len() as int }),
            self.indexes_all() && budget(n, search_k, self.n_trees() as int) >= self.items().dom().len()
                && wanted(n) >= self.items().dom().len() ==> forall|x: i32|
                #[trigger] self.items().contains_key(x) ==> r->Ok_0@.contains(x),
    {
        let k: usize = if n < 0 { 0 } else { n as usize };
        let nt = self.trees.len();
        let b: usize = if search_k >= 0 {
            search_k as usize
        } else {
            match k.checked_mul(nt) {
                Some(p) => p,
                None => usize::MAX,
            }
        };
        let c = collect_candidates(&self.store, &self.trees, w, b);
        let r = top_k(&self.store, w, &c, k);
        proof {
            let s = self.store@;
            self.store.lemma_dom_len();
            assert(c@.to_set().subset_of(s.dom()));
            vstd::set_lib::lemma_len_subset(c@.to_set(), s.dom());
            c@.unique_seq_to_set();
            assert(b as int == budget(n, search_k, nt as int));
            if self.indexes_all() && budget(n, search_k, nt as int) >= s.dom().len() {
                if c.len() < b {
                    assert(s.dom().subset_of(c@.to_set()));
                } else {
                    assert forall|x: i32| #[trigger] s.dom().contains(x) implies c@.to_set().contains(x) by {
                        if !c@.contains(x) {
                            assert(c@.to_set().subset_of(s.dom().remove(x)));
                            vstd::set_lib::lemma_len_subset(c@.to_set(), s.dom().remove(x));
                        }
                    }
                }
                assert(s.dom().subset_of(c@.to_set()));
                vstd::set_lib::lemma_len_subset(s.dom(), c@.to_set());
                if wanted(n) >= s.dom().len() {
                    assert forall|x: i32| #[trigger] s.contains_key(x) implies r@.contains(x) by {
                        assert(c@.contains(x));
                        if !r@.contains(x) {
                            assert(r@.to_set().subset_of(c@.to_set().remove(x)));
                            vstd::set_lib::lemma_len_subset(r@.to_set(), c@.to_set().remove(x));
                            r@.unique_seq_to_set();
                        }
                    }
                }
            }
            assert(is_top(w@, s, c@, wanted(n), r@));
        }
        Ok(r)
    }

    /// As `get_nns_by_vector`, with the vector stored under `item` as the query.
    pub fn get_nns_by_item(&self, item: i32, n: i32, search_k: i32) -> (r: Result<Vec<i32>, AnnError>)
        requires
            self.wf(),
        ensures
            r is Err <==> !self.is_built() || !self.items().contains_key(item),
            !self.is_built() ==> r == Err::<Vec<i32>, AnnError>(AnnError::NotBuilt),
            self.is_built() && !self.items().contains_key(item) ==> r == Err::<Vec<i32>, AnnError>(AnnError::ItemNotFound),
            r is Ok ==> ({
                let c = self.candidates(self.items()[item], n, search_k);
                &&& c.no_duplicates()
                &&& forall|j: int| 0 <= j < c.len() ==> self.items().contains_key(#[trigger] c[j])
                &&& c.len() < budget(n, search_k, self.n_trees() as int)
                    ==> forall|x: i32| #[trigger] self.indexed().contains(x) ==> c.contains(x)
                &&& is_top(self.items()[item], self.items(), c, wanted(n), r->Ok_0@)
            }),
            r is Ok && self.n_trees() == 0 ==> r->Ok_0@.len() == 0,
            r is Ok && self.indexes_all() && budget(n, search_k, self.n_trees() as int) >= self.items().dom().len()
                ==> r->Ok_0@.len() == (if wanted(n) < self.items().dom().len() { wanted(n) } else { self.items().dom().len() as int }),
            r is Ok && self.indexes_all() && budget(n, search_k, self.n_trees() as int) >= self.items().dom().len()
                && wanted(n) >= self.items().dom().len() ==> forall|x: i32|
                #[trigger] self.items().contains_key(x) ==> r->Ok_0@.contains(x),
    {
        if !self.built {
            return Err(AnnError::NotBuilt);
        }
        match self.store.get(item) {
            Some(v) => {
                proof {
                    self.store.lemma_view_dims();
                }
                self.search(v, n, search_k)
            },
            None => Err(AnnError::ItemNotFound),
        }
    }
}

} // verus!
