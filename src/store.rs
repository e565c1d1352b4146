use vstd::prelude::*;
use crate::vector::MAX_DIM;

verus! {

/// Item identifiers mapped to vectors of one fixed dimensionality.
pub struct VectorStore {
    pub dim: usize,
    pub ids: Vec<i32>,
    pub vecs: Vec<Vec<i16>>,
}

impl VectorStore {
    /// Identifiers are unique, one vector per identifier, each of length `dim`.
    pub open spec fn wf(&self) -> bool {
        &&& self.dim <= MAX_DIM
        &&& self.ids.len() == self.vecs.len()
        &&& self.ids@.no_duplicates()
        &&& forall|i: int| 0 <= i < self.vecs.len() ==> (#[trigger] self.vecs@[i])@.len() == self.dim
    }

    /// The stored vectors, by identifier.
    pub open spec fn view(&self) -> Map<i32, Seq<i16>> {
        Map::new(
            |id: i32| self.ids@.contains(id),
            |id: i32| self.vecs@[choose|i: int| 0 <= i < self.ids.len() && self.ids@[i] == id]@,
        )
    }

    pub proof fn lemma_view_at(&self, i: int)
        requires
            self.wf(),
            0 <= i < self.ids.len(),
        ensures
            self@.contains_key(self.ids@[i]),
            self@[self.ids@[i]] == self.vecs@[i]@,
    {
        let id = self.ids@[i];
        assert(self.ids@.contains(id));
        let j = choose|j: int| 0 <= j < self.ids.len() && self.ids@[j] == id;
        assert(self.ids@[j] == id);
        assert(j == i);
    }

    pub proof fn lemma_view_dims(&self)
        requires
            self.wf(),
        ensures
            forall|id: i32| #[trigger] self@.contains_key(id) ==> self@[id].len() == self.dim,
    {
        assert forall|id: i32| #[trigger] self@.contains_key(id) implies self@[id].len() == self.dim by {
            let i = choose|i: int| 0 <= i < self.ids.len() && self.ids@[i] == id;
            self.lemma_view_at(i);
        }
    }

    /// An empty store for vectors of `dim` coordinates.
    pub fn new(dim: usize) -> (r: Self)
        requires
            dim <= MAX_DIM,
        ensures
            r.wf(),
            r.dim == dim,
            r@ == Map::<i32, Seq<i16>>::empty(),
    {
        let r = VectorStore { dim, ids: Vec::new(), vecs: Vec::new() };
        assert(r@ =~= Map::<i32, Seq<i16>>::empty());
        r
    }

    pub proof fn lemma_dom_len(&self)
        requires
            self.wf(),
        ensures
            self@.dom() == self.ids@.to_set(),
            self@.dom().len() == self.ids.len(),
    {
        assert(self@.dom() =~= self.ids@.to_set());
        self.ids@.unique_seq_to_set();
    }

    /// Position of `id` among the stored identifiers.
    pub fn find(&self, id: i32) -> (r: Option<usize>)
        requires
            self.wf(),
        ensures
            r.is_none() ==> !self@.contains_key(id),
            r.is_some() ==> r.unwrap() < self.ids.len() && self.ids@[r.unwrap() as int] == id,
    {
        let mut i: usize = 0;
        while i < self.ids.len()
            invariant
                i <= self.ids.len(),
                forall|j: int| 0 <= j < i ==> self.ids@[j] != id,
            decreases self.ids.len() - i,
        {
            if self.ids[i] == id {
                return Some(i);
            }
            i = i + 1;
        }
        None
    }

    /// Stores `w` under `id`, replacing what was stored there.
    pub fn insert(&mut self, id: i32, w: Vec<i16>)
        requires
            old(self).wf(),
            w.len() == old(self).dim,
        ensures
            final(self).wf(),
            final(self).dim == old(self).dim,
            final(self)@ == old(self)@.insert(id, w@),
    {
        let ghost pre = *self;
        let ghost wv = w@;
        match self.find(id) {
            Some(j) => {
                self.vecs.set(j, w);
                proof {
                    assert forall|k: i32| #[trigger] self@.contains_key(k) == pre@.insert(id, wv).contains_key(k) by {}
                    assert forall|k: i32| #[trigger] self@.contains_key(k) implies self@[k] == pre@.insert(id, wv)[k] by {
                        let i = choose|i: int| 0 <= i < self.ids.len() && self.ids@[i] == k;
                        self.lemma_view_at(i);
                        pre.lemma_view_at(i);
                    }
                    assert(self@ =~= pre@.insert(id, wv));
                }
            },
            None => {
                self.ids.push(id);
                self.vecs.push(w);
                proof {
                    assert forall|k: i32| #[trigger] self@.contains_key(k) == pre@.insert(id, wv).contains_key(k) by {
                        assert(self.ids@[self.ids.len() - 1] == id);
                        if k != id && self.ids@.contains(k) {
                            let i = choose|i: int| 0 <= i < self.ids.len() && self.ids@[i] == k;
                            assert(pre.ids@[i] == k);
                        }
                        if pre.ids@.contains(k) {
                            let i = choose|i: int| 0 <= i < pre.ids.len() && pre.ids@[i] == k;
                            assert(self.ids@[i] == k);
                        }
                    }
                    assert forall|k: i32| #[trigger] self@.contains_key(k) implies self@[k] == pre@.insert(id, wv)[k] by {
                        let i = choose|i: int| 0 <= i < self.ids.len() && self.ids@[i] == k;
                        self.lemma_view_at(i);
                        if i < pre.ids.len() {
                            pre.lemma_view_at(i);
                        }
                    }
                    assert(self@ =~= pre@.insert(id, wv));
                }
            },
        }
    }

    /// The vector stored under `id`, if any.
    pub fn get(&self, id: i32) -> (r: Option<&Vec<i16>>)
        requires
            self.wf(),
        ensures
            r.is_none() <==> !self@.contains_key(id),
            r.is_some() ==> r.unwrap()@ == self@[id],
    {
        match self.find(id) {
            Some(j) => {
                proof {
                    self.lemma_view_at(j as int);
                }
                Some(&self.vecs[j])
            },
            None => None,
        }
    }
}

} // verus!
