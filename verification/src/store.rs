//! The in-memory key-value store.  The pairs live in an association list
//! whose keys are unique; its meaning is the finite map built by inserting
//! the pairs in order, and every operation is specified against that map.

use vstd::prelude::*;
use vstd::string::*;
use vstd::std_specs::vec::vec_index_mut;
use crate::parser::Request;
use crate::response::Response;
use crate::snapshot::{decode_pairs, encode_pairs, lemma_decode_encode, spec_decode, spec_encode};
use crate::text::str_eq;

verus! {

/// The views of a sequence of stored pairs.
pub open spec fn pairs_view(ps: Seq<(String, String)>) -> Seq<(Seq<char>, Seq<char>)> {
    ps.map_values(|p: (String, String)| (p.0@, p.1@))
}

/// The mapping an association list denotes; a later pair for a key
/// overrides an earlier one.
pub open spec fn as_map(ps: Seq<(Seq<char>, Seq<char>)>) -> Map<Seq<char>, Seq<char>>
    decreases ps.len(),
{
    if ps.len() == 0 {
        Map::empty()
    } else {
        as_map(ps.drop_last()).insert(ps.last().0, ps.last().1)
    }
}

/// No key appears twice.
pub open spec fn unique_keys(ps: Seq<(Seq<char>, Seq<char>)>) -> bool {
    forall|i: int, j: int| 0 <= i < j < ps.len() ==> ps[i].0 != ps[j].0
}

/// With unique keys, every listed pair is in the denoted map.
proof fn lemma_as_map_index(ps: Seq<(Seq<char>, Seq<char>)>, i: int)
    requires
        unique_keys(ps),
        0 <= i < ps.len(),
    ensures
        as_map(ps).contains_key(ps[i].0),
        as_map(ps)[ps[i].0] == ps[i].1,
    decreases ps.len(),
{
    if i < ps.len() - 1 {
        assert(unique_keys(ps.drop_last())) by {
            assert(forall|a: int, b: int|
                0 <= a < b < ps.drop_last().len() ==> ps.drop_last()[a].0 != ps.drop_last()[b].0);
        }
        lemma_as_map_index(ps.drop_last(), i);
        assert(ps.last().0 != ps[i].0);
    }
}

/// A key listed nowhere is absent from the denoted map.
proof fn lemma_as_map_absent(ps: Seq<(Seq<char>, Seq<char>)>, k: Seq<char>)
    requires
        forall|i: int| 0 <= i < ps.len() ==> ps[i].0 != k,
    ensures
        !as_map(ps).contains_key(k),
    decreases ps.len(),
{
    if ps.len() > 0 {
        lemma_as_map_absent(ps.drop_last(), k);
    }
}

/// With unique keys, replacing the pair that holds a key rewrites exactly
/// that key's value in the denoted map.
proof fn lemma_as_map_update(ps: Seq<(Seq<char>, Seq<char>)>, i: int, v: Seq<char>)
    requires
        unique_keys(ps),
        0 <= i < ps.len(),
    ensures
        as_map(ps.update(i, (ps[i].0, v))) == as_map(ps).insert(ps[i].0, v),
    decreases ps.len(),
{
    let k = ps[i].0;
    let qs = ps.update(i, (k, v));
    if i == ps.len() - 1 {
        assert(qs.drop_last() =~= ps.drop_last());
        assert(as_map(ps.drop_last()).insert(k, v) =~= as_map(ps.drop_last()).insert(
            k,
            ps.last().1,
        ).insert(k, v));
    } else {
        assert(unique_keys(ps.drop_last())) by {
            assert(forall|a: int, b: int|
                0 <= a < b < ps.drop_last().len() ==> ps.drop_last()[a].0 != ps.drop_last()[b].0);
        }
        lemma_as_map_update(ps.drop_last(), i, v);
        assert(qs.drop_last() =~= ps.drop_last().update(i, (k, v)));
        assert(qs.last() == ps.last());
        assert(ps.last().0 != k);
        assert(as_map(ps.drop_last()).insert(k, v).insert(ps.last().0, ps.last().1)
            =~= as_map(ps.drop_last()).insert(ps.last().0, ps.last().1).insert(k, v));
    }
}

/// The in-memory mapping from keys to values.  It is constructed once at
/// startup, mutated only by `set`, and serialized by the snapshot codec.
#[derive(Debug)]
pub struct Storage {
    pairs: Vec<(String, String)>,
}

impl View for Storage {
    type V = Map<Seq<char>, Seq<char>>;

    open spec fn view(&self) -> Map<Seq<char>, Seq<char>> {
        as_map(self.spec_pairs())
    }
}

impl Storage {
    /// The stored pairs, in insertion order.
    pub closed spec fn spec_pairs(&self) -> Seq<(Seq<char>, Seq<char>)> {
        pairs_view(self.pairs@)
    }

    /// Well-formed: no key is stored twice.
    pub open spec fn wf(&self) -> bool {
        unique_keys(self.spec_pairs())
    }

    /// An empty store.
    pub fn new() -> (s: Storage)
        ensures
            s.wf(),
            s@ == Map::<Seq<char>, Seq<char>>::empty(),
            s.spec_pairs() == Seq::<(Seq<char>, Seq<char>)>::empty(),
    {
        let s = Storage { pairs: Vec::new() };
        proof {
            assert(s.spec_pairs() =~= Seq::<(Seq<char>, Seq<char>)>::empty());
        }
        s
    }

    /// Looks `key` up; the store is unchanged.  Returns the value stored
    /// under the key, or reports that there is none.
    pub fn get(&self, key: &str) -> (r: Response)
        requires
            self.wf(),
        ensures
            self@.contains_key(key@) ==> (r matches Response::GetSuccess(value) && value@
                == self@[key@]),
            !self@.contains_key(key@) ==> (r matches Response::NotFound),
    {
        let n = self.pairs.len();
        let mut i: usize = 0;
        while i < n
            invariant
                i <= n,
                n == self.pairs.len(),
                self.wf(),
                forall|j: int| 0 <= j < i ==> self.spec_pairs()[j].0 != key@,
            decreases n - i,
        {
            let hit = str_eq(self.pairs[i].0.as_str(), key);
            if hit {
                proof {
                    lemma_as_map_index(self.spec_pairs(), i as int);
                }
                return Response::GetSuccess(self.pairs[i].1.clone());
            }
            i += 1;
        }
        proof {
            lemma_as_map_absent(self.spec_pairs(), key@);
        }
        Response::NotFound
    }

    /// Binds `key` to `value`, replacing any prior binding; always succeeds.
    pub fn set(&mut self, key: String, value: String) -> (r: Response)
        requires
            old(self).wf(),
        ensures
            final(self).wf(),
            final(self)@ == old(self)@.insert(key@, value@),
            r matches Response::SetSuccess,
    {
        let n = self.pairs.len();
        let mut i: usize = 0;
        while i < n
            invariant
                i <= n,
                n == self.pairs.len(),
                self.pairs@ == old(self).pairs@,
                old(self).wf(),
                forall|j: int| 0 <= j < i ==> self.spec_pairs()[j].0 != key@,
            decreases n - i,
        {
            let hit = str_eq(self.pairs[i].0.as_str(), key.as_str());
            if hit {
                proof {
                    lemma_as_map_update(old(self).spec_pairs(), i as int, value@);
                }
                let slot = vec_index_mut(&mut self.pairs, i);
                *slot = (key, value);
                proof {
                    assert(self.spec_pairs() =~= old(self).spec_pairs().update(
                        i as int,
                        (old(self).spec_pairs()[i as int].0, value@),
                    ));
                    assert(unique_keys(self.spec_pairs())) by {
                        assert(forall|j: int|
                            0 <= j < self.spec_pairs().len() ==> self.spec_pairs()[j].0 == old(
                                self,
                            ).spec_pairs()[j].0);
                    }
                }
                return Response::SetSuccess;
            }
            i += 1;
        }
        proof {
            assert(forall|j: int|
                0 <= j < old(self).spec_pairs().len() ==> old(self).spec_pairs()[j].0 != key@) by {
                assert(forall|j: int| 0 <= j < i ==> self.spec_pairs()[j].0 != key@);
                assert(self.spec_pairs() =~= old(self).spec_pairs());
            }
        }
        self.pairs.push((key, value));
        proof {
            let ps = old(self).spec_pairs();
            let qs = self.spec_pairs();
            assert(qs.drop_last() =~= ps);
            assert(qs.last() == (key@, value@));
            assert(forall|j: int| 0 <= j < ps.len() ==> qs[j] == ps[j]);
            assert forall|a: int, b: int| 0 <= a < b < qs.len() implies qs[a].0 != qs[b].0 by {
                if b == qs.len() - 1 {
                    assert(ps[a].0 != key@);
                } else {
                    assert(ps[a].0 != ps[b].0);
                }
            }
        }
        Response::SetSuccess
    }

    /// Serializes the whole mapping as snapshot text, in one piece; the
    /// text decodes to exactly the stored pairs.
    pub fn save(&self) -> (out: String)
        requires
            self.wf(),
        ensures
            out@ == spec_encode(self.spec_pairs()),
            spec_decode(out@) == Some(self.spec_pairs()),
    {
        let out = encode_pairs(&self.pairs);
        proof {
            lemma_decode_encode(self.spec_pairs());
        }
        out
    }

    /// Rebuilds a store from snapshot text, or reports corrupt text.  The
    /// decoded pairs are replayed in order, so a duplicated key ends at its
    /// last value, and loading what [`Storage::save`] wrote restores
    /// exactly the saved mapping.
    pub fn load(text: &str) -> (r: Option<Storage>)
        ensures
            (spec_decode(text@) is Some) <==> (r is Some),
            r matches Some(st) ==> st.wf() && st@ == as_map(spec_decode(text@).unwrap()),
    {
        match decode_pairs(text) {
            None => None,
            Some(pairs) => {
                let mut st = Storage::new();
                let n = pairs.len();
                let mut i: usize = 0;
                proof {
                    assert(pairs_view(pairs@).take(0) =~= Seq::<(Seq<char>, Seq<char>)>::empty());
                }
                while i < n
                    invariant
                        i <= n,
                        n == pairs@.len(),
                        st.wf(),
                        st@ == as_map(pairs_view(pairs@).take(i as int)),
                    decreases n - i,
                {
                    let key = pairs[i].0.clone();
                    let value = pairs[i].1.clone();
                    st.set(key, value);
                    proof {
                        let pv = pairs_view(pairs@);
                        assert(pv.take(i + 1).drop_last() =~= pv.take(i as int));
                        assert(pv.take(i + 1).last() == (pairs@[i as int].0@, pairs@[i as int].1@));
                    }
                    i += 1;
                }
                proof {
                    assert(pairs_view(pairs@).take(n as int) =~= pairs_view(pairs@));
                }
                Some(st)
            },
        }
    }
}

/// Applies a parsed request to the store: a lookup for a get, an insert or
/// overwrite for a put; the outcome feeds the response renderer.
pub fn handle_request(request: Request, storage: &mut Storage) -> (r: Response)
    requires
        old(storage).wf(),
    ensures
        final(storage).wf(),
        request matches Request::Get(key) ==> (*final(storage) == *old(storage) && (old(
            storage,
        )@.contains_key(key@) ==> (r matches Response::GetSuccess(value) && value@ == old(
            storage,
        )@[key@])) && (!old(storage)@.contains_key(key@) ==> (r matches Response::NotFound))),
        request matches Request::Put(key, value) ==> (final(storage)@ == old(storage)@.insert(
            key@,
            value@,
        ) && (r matches Response::SetSuccess)),
{
    match request {
        Request::Get(key) => storage.get(key.as_str()),
        Request::Put(key, value) => storage.set(key, value),
    }
}

/// A write is immediately readable: after `set(k, v)` the store maps `k`
/// to `v`, so `get(k)` returns the value just written.
pub proof fn lemma_set_then_get(m: Map<Seq<char>, Seq<char>>, k: Seq<char>, v: Seq<char>)
    ensures
        m.insert(k, v).contains_key(k),
        m.insert(k, v)[k] == v,
{
}

/// A key that no write ever bound is absent: it is absent from the empty
/// store, and binding any other key keeps it absent — so `get` on it
/// returns a not-found outcome.
pub proof fn lemma_unset_key_absent(
    m: Map<Seq<char>, Seq<char>>,
    k: Seq<char>,
    other: Seq<char>,
    v: Seq<char>,
)
    requires
        other != k,
    ensures
        !Map::<Seq<char>, Seq<char>>::empty().contains_key(k),
        !m.contains_key(k) ==> !m.insert(other, v).contains_key(k),
{
}

/// Persistence round trip: the snapshot text of a store's pairs decodes
/// back to them, and they denote the same mapping — so populating a store,
/// saving it, and loading the text into a fresh store restores exactly the
/// mapping that was saved.
pub proof fn lemma_persistence_round_trip(ps: Seq<(Seq<char>, Seq<char>)>)
    ensures
        spec_decode(spec_encode(ps)) == Some(ps),
        as_map(spec_decode(spec_encode(ps)).unwrap()) == as_map(ps),
{
    lemma_decode_encode(ps);
}

/// Overwrite semantics: after `set(k, v1)` then `set(k, v2)`, the store
/// maps `k` to `v2` — the first value is fully discarded.
pub proof fn lemma_overwrite(
    m: Map<Seq<char>, Seq<char>>,
    k: Seq<char>,
    v1: Seq<char>,
    v2: Seq<char>,
)
    ensures
        m.insert(k, v1).insert(k, v2).contains_key(k),
        m.insert(k, v1).insert(k, v2)[k] == v2,
{
}

} // verus!
