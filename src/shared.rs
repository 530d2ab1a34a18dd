//! The shared memory: a map from `i32` keys to byte strings, kept as two
//! parallel vectors with unique keys.
use vstd::prelude::*;
use crate::bytes::{i32_bytes, i32_of, i32_to_bytes, i32_from_ne_bytes};

verus! {

/// The map that a list of keys and values describes: later entries win.
pub open spec fn map_of(keys: Seq<i32>, vals: Seq<Seq<u8>>) -> Map<i32, Seq<u8>>
    decreases keys.len(),
{
    if keys.len() == 0 || vals.len() < keys.len() {
        Map::empty()
    } else {
        map_of(keys.drop_last(), vals.subrange(0, keys.len() - 1)).insert(
            keys.last(),
            vals[keys.len() - 1],
        )
    }
}

/// The map that `[k_1, v_1, k_2, v_2, ...]` describes, over its first `n`
/// pairs: pairs whose key is not four bytes long are skipped, later pairs win.
pub open spec fn pairs_map(pairs: Seq<Seq<u8>>, n: nat) -> Map<i32, Seq<u8>>
    decreases n,
{
    if n == 0 || pairs.len() < 2 * n {
        Map::empty()
    } else {
        let m = pairs_map(pairs, (n - 1) as nat);
        match i32_of(pairs[2 * n - 2]) {
            Some(k) => m.insert(k, pairs[2 * n - 1]),
            None => m,
        }
    }
}

/// The flat `[k_1, v_1, k_2, v_2, ...]` form of a list of entries.
pub open spec fn entries_data(keys: Seq<i32>, vals: Seq<Seq<u8>>) -> Seq<Seq<u8>>
    decreases keys.len(),
{
    if keys.len() == 0 || vals.len() < keys.len() {
        Seq::empty()
    } else {
        entries_data(keys.drop_last(), vals.subrange(0, keys.len() - 1)) + seq![
            i32_bytes(keys.last()),
            vals[keys.len() - 1],
        ]
    }
}

/// The shared map.
pub struct SharedMemory {
    keys: Vec<i32>,
    values: Vec<Vec<u8>>,
}

impl View for SharedMemory {
    type V = Map<i32, Seq<u8>>;

    closed spec fn view(&self) -> Map<i32, Seq<u8>> {
        map_of(self.keys@, self.values.deep_view())
    }
}

/// The deep view of a byte vector is its view.
pub proof fn lemma_bytes_deep_view(b: Vec<u8>)
    ensures
        b.deep_view() == b@,
{
    assert(b.deep_view() =~= b@);
}

/// Setting the value at a key's index is inserting at that key.
proof fn lemma_map_of_update(keys: Seq<i32>, vals: Seq<Seq<u8>>, i: int, v: Seq<u8>)
    requires
        keys.len() == vals.len(),
        0 <= i < keys.len(),
        keys.no_duplicates(),
    ensures
        map_of(keys, vals.update(i, v)) == map_of(keys, vals).insert(keys[i], v),
    decreases keys.len(),
{
    let n = keys.len();
    let nv = vals.update(i, v);
    if i == n - 1 {
        assert(nv.subrange(0, n - 1) =~= vals.subrange(0, n - 1));
        assert(map_of(keys, nv) =~= map_of(keys, vals).insert(keys[i], v));
    } else {
        let ks = keys.drop_last();
        let vs = vals.subrange(0, n - 1);
        assert(ks.no_duplicates());
        lemma_map_of_update(ks, vs, i, v);
        assert(nv.subrange(0, n - 1) =~= vs.update(i, v));
        assert(keys.last() != keys[i]);
        assert(map_of(keys, nv) =~= map_of(keys, vals).insert(keys[i], v));
    }
}

/// A key is in the map exactly when it is in the list, with the value at
/// its index.
proof fn lemma_map_of_index(keys: Seq<i32>, vals: Seq<Seq<u8>>)
    requires
        keys.len() == vals.len(),
        keys.no_duplicates(),
    ensures
        forall|k: i32| map_of(keys, vals).contains_key(k) <==> keys.contains(k),
        forall|i: int|
            0 <= i < keys.len() ==> map_of(keys, vals)[#[trigger] keys[i]] == vals[i],
    decreases keys.len(),
{
    let n = keys.len();
    if n > 0 {
        let ks = keys.drop_last();
        let vs = vals.subrange(0, n - 1);
        assert(ks.no_duplicates());
        lemma_map_of_index(ks, vs);
        assert forall|k: i32| map_of(keys, vals).contains_key(k) <==> keys.contains(k) by {
            if keys.contains(k) {
                let j = choose|j: int| 0 <= j < n && keys[j] == k;
                if j < n - 1 {
                    assert(ks[j] == k);
                }
            }
            if ks.contains(k) {
                let j = choose|j: int| 0 <= j < n - 1 && ks[j] == k;
                assert(keys[j] == k);
            }
        }
        assert forall|i: int| 0 <= i < keys.len() implies map_of(keys, vals)[#[trigger] keys[i]]
            == vals[i] by {
            if i < n - 1 {
                assert(ks[i] == keys[i]);
                assert(vs[i] == vals[i]);
            }
        }
    }
}

/// `pairs_map` over `n` pairs looks at the first `2n` elements only.
proof fn lemma_pairs_map_prefix(pairs: Seq<Seq<u8>>, more: Seq<Seq<u8>>, n: nat)
    requires
        2 * n <= pairs.len(),
    ensures
        pairs_map(pairs + more, n) == pairs_map(pairs, n),
    decreases n,
{
    if n > 0 {
        lemma_pairs_map_prefix(pairs, more, (n - 1) as nat);
        assert((pairs + more)[2 * n - 2] == pairs[2 * n - 2]);
        assert((pairs + more)[2 * n - 1] == pairs[2 * n - 1]);
    }
}

/// The flat form of a list of entries describes the same map.
pub proof fn lemma_entries_map(keys: Seq<i32>, vals: Seq<Seq<u8>>)
    requires
        keys.len() == vals.len(),
    ensures
        entries_data(keys, vals).len() == 2 * keys.len(),
        pairs_map(entries_data(keys, vals), keys.len()) == map_of(keys, vals),
    decreases keys.len(),
{
    let n = keys.len();
    if n > 0 {
        let ks = keys.drop_last();
        let vs = vals.subrange(0, n - 1);
        lemma_entries_map(ks, vs);
        let prev = entries_data(ks, vs);
        let tail = seq![i32_bytes(keys.last()), vals[n - 1]];
        let e = entries_data(keys, vals);
        assert(e == prev + tail);
        lemma_pairs_map_prefix(prev, tail, (n - 1) as nat);
        crate::bytes::lemma_i32_of_bytes(keys.last());
        assert(e[2 * n - 2] == i32_bytes(keys.last()));
        assert(e[2 * n - 1] == vals[n - 1]);
    }
}

impl SharedMemory {
    /// The keys are unique and each has a value.
    pub closed spec fn wf(&self) -> bool {
        &&& self.keys@.len() == self.values@.len()
        &&& self.keys@.no_duplicates()
    }

    /// The entries in the flat form `[k_1, v_1, ...]`.
    pub closed spec fn entries(&self) -> Seq<Seq<u8>> {
        entries_data(self.keys@, self.values.deep_view())
    }

    /// An empty map.
    pub fn new() -> (r: SharedMemory)
        ensures
            r.wf(),
            r@ == Map::<i32, Seq<u8>>::empty(),
    {
        let r = SharedMemory { keys: Vec::new(), values: Vec::new() };
        assert(r@ =~= Map::<i32, Seq<u8>>::empty());
        r
    }

    /// The value at a key.
    pub fn get(&self, key: i32) -> (r: Option<Vec<u8>>)
        requires
            self.wf(),
        ensures
            self@.contains_key(key) ==> (r matches Some(v) && v@ == self@[key]),
            !self@.contains_key(key) ==> r is None,
    {
        let mut i: usize = 0;
        while i < self.keys.len()
            invariant
                self.wf(),
                i <= self.keys@.len(),
                forall|j: int| 0 <= j < i ==> self.keys@[j] != key,
            decreases self.keys.len() - i,
        {
            if self.keys[i] == key {
                let v = self.values[i].clone();
                proof {
                    lemma_map_of_index(self.keys@, self.values.deep_view());
                    assert(v@ =~= self.values.deep_view()[i as int]);
                    assert(self.keys@[i as int] == key);
                    assert(self.keys@.contains(key));
                    assert(map_of(self.keys@, self.values.deep_view()).contains_key(key));
                    assert(self@.contains_key(key));
                    assert(self@[key] == self.values.deep_view()[i as int]);
                }
                return Some(v);
            }
            i += 1;
        }
        proof {
            lemma_map_of_index(self.keys@, self.values.deep_view());
            assert(!self.keys@.contains(key));
        }
        None
    }

    /// Sets the value at a key.
    pub fn insert(&mut self, key: i32, value: Vec<u8>)
        requires
            old(self).wf(),
        ensures
            final(self).wf(),
            final(self)@ == old(self)@.insert(key, value@),
    {
        let ghost v = value@;
        let mut i: usize = 0;
        while i < self.keys.len()
            invariant
                self.wf(),
                self@ == old(self)@,
                self.keys@ == old(self).keys@,
                self.values@ == old(self).values@,
                v == value@,
                i <= self.keys@.len(),
                forall|j: int| 0 <= j < i ==> self.keys@[j] != key,
            decreases self.keys.len() - i,
        {
            if self.keys[i] == key {
                proof {
                    lemma_map_of_update(self.keys@, self.values.deep_view(), i as int, v);
                    lemma_bytes_deep_view(value);
                }
                let ghost before = self.values@;
                self.values.set(i, value);
                proof {
                    assert(self.values@ == before.update(i as int, value));
                    assert(self.values@[i as int].deep_view() == v);
                    assert forall|j: int| 0 <= j < self.values@.len() && j != i implies
                        self.values@[j].deep_view() == old(self).values@[j].deep_view() by {
                        assert(self.values@[j] == before[j]);
                    }
                    assert(self.values.deep_view() =~= old(self).values.deep_view().update(
                        i as int,
                        v,
                    ));
                }
                return;
            }
            i += 1;
        }
        let ghost ok = self.keys@;
        let ghost ov = self.values.deep_view();
        proof {
            lemma_bytes_deep_view(value);
        }
        self.keys.push(key);
        self.values.push(value);
        proof {
            assert(self.values.deep_view().last() == v);
            assert(self.keys@.drop_last() =~= ok);
            assert(self.values.deep_view().subrange(0, ok.len() as int) =~= ov);
            assert(self.keys@.no_duplicates());
        }
    }

    /// Removes every entry.
    pub fn clear(&mut self)
        ensures
            final(self).wf(),
            final(self)@ == Map::<i32, Seq<u8>>::empty(),
    {
        self.keys.clear();
        self.values.clear();
        assert(self@ =~= Map::<i32, Seq<u8>>::empty());
    }

    /// The entries in the flat form `[k_1, v_1, k_2, v_2, ...]`.
    pub fn to_pairs(&self) -> (r: Vec<Vec<u8>>)
        requires
            self.wf(),
        ensures
            r.deep_view() == self.entries(),
            r@.len() % 2 == 0,
            pairs_map(r.deep_view(), r@.len() / 2) == self@,
            r@.len() / 2 == self@.dom().len(),
    {
        let mut r: Vec<Vec<u8>> = Vec::new();
        let mut i: usize = 0;
        while i < self.keys.len()
            invariant
                self.wf(),
                i <= self.keys@.len(),
                r.deep_view() == entries_data(
                    self.keys@.subrange(0, i as int),
                    self.values.deep_view().subrange(0, i as int),
                ),
            decreases self.keys.len() - i,
        {
            let ghost prev = r.deep_view();
            let kb = i32_to_bytes(self.keys[i]);
            let vb = self.values[i].clone();
            assert(vb@ =~= self.values.deep_view()[i as int]);
            proof {
                lemma_bytes_deep_view(kb);
                lemma_bytes_deep_view(vb);
            }
            r.push(kb);
            r.push(vb);
            proof {
                assert(r.deep_view() =~= prev + seq![kb@, vb@]);
                let ks = self.keys@.subrange(0, i + 1);
                let vs = self.values.deep_view().subrange(0, i + 1);
                assert(ks.drop_last() =~= self.keys@.subrange(0, i as int));
                assert(vs.subrange(0, i as int) =~= self.values.deep_view().subrange(0, i as int));
                assert(r.deep_view() =~= prev + seq![i32_bytes(ks.last()), vs[i as int]]);
                assert(r.deep_view() == entries_data(ks, vs));
            }
            i += 1;
        }
        assert(self.keys@.subrange(0, i as int) =~= self.keys@);
        assert(self.values.deep_view().subrange(0, i as int) =~= self.values.deep_view());
        proof {
            lemma_entries_map(self.keys@, self.values.deep_view());
            lemma_map_of_index(self.keys@, self.values.deep_view());
            assert(self@.dom() =~= self.keys@.to_set());
            self.keys@.unique_seq_to_set();
        }
        r
    }

    /// Replaces the contents with the pairs of `[k_1, v_1, k_2, v_2, ...]`
    /// that start at index `from`.
    pub fn load_pairs(&mut self, data: &Vec<Vec<u8>>, from: usize)
        requires
            from <= data@.len(),
        ensures
            final(self).wf(),
            final(self)@ == pairs_map(
                data.deep_view().skip(from as int),
                ((data@.len() - from) / 2) as nat,
            ),
    {
        self.clear();
        let ghost pairs = data.deep_view().skip(from as int);
        let mut p: usize = from;
        let ghost mut i: nat = 0;
        while data.len() - p >= 2
            invariant
                self.wf(),
                from <= p <= data@.len(),
                p == from + 2 * i,
                pairs == data.deep_view().skip(from as int),
                self@ == pairs_map(pairs, i),
            decreases data@.len() - p,
        {
            let kb = &data[p];
            let vb = data[p + 1].clone();
            assert(kb@ =~= pairs[2 * i as int]);
            assert(vb@ =~= pairs[(2 * i + 1) as int]);
            match i32_from_ne_bytes(kb.as_slice()) {
                Ok(k) => {
                    self.insert(k, vb);
                },
                Err(_) => {},
            }
            p = p + 2;
            proof {
                i = i + 1;
            }
        }
        assert(i == (data@.len() - from) / 2);
    }
}

} // verus!
