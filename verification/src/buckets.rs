//! An index from a text key to the positions that carry it.

use vstd::hash_map::StringHashMap;
use vstd::prelude::*;

use crate::seqs;
use crate::text;

verus! {

/// The positions of `keys` that carry the key `name`, in order.
pub open spec fn bucket(keys: Seq<Option<Seq<char>>>, name: Seq<char>) -> Seq<int>
    decreases keys.len(),
{
    if keys.len() == 0 {
        Seq::empty()
    } else {
        let before = bucket(keys.drop_last(), name);
        if keys.last() == Some(name) {
            before.push(keys.len() - 1)
        } else {
            before
        }
    }
}

/// A bucket holds exactly the positions that carry its key.
pub proof fn lemma_bucket(keys: Seq<Option<Seq<char>>>, name: Seq<char>)
    ensures
        bucket(keys, name).len() <= keys.len(),
        forall|j: int|
            0 <= j < bucket(keys, name).len() ==> 0 <= (#[trigger] bucket(keys, name)[j]) < keys.len()
                && keys[bucket(keys, name)[j]] == Some(name),
        forall|i: int|
            0 <= i < keys.len() && #[trigger] keys[i] == Some(name) ==> bucket(keys, name).contains(i),
    decreases keys.len(),
{
    if keys.len() > 0 {
        let init = keys.drop_last();
        let before = bucket(init, name);
        lemma_bucket(init, name);
        assert forall|i: int|
            0 <= i < keys.len() && #[trigger] keys[i] == Some(name) implies bucket(keys, name).contains(i) by {
            if i < keys.len() - 1 {
                assert(init[i] == keys[i]);
                let j = choose|j: int| 0 <= j < before.len() && before[j] == i;
                assert(bucket(keys, name)[j] == i);
            } else {
                assert(bucket(keys, name)[before.len() as int] == i);
            }
        }
    }
}

/// The positions of a bucket stand in order.
pub proof fn lemma_bucket_increases(keys: Seq<Option<Seq<char>>>, name: Seq<char>)
    ensures
        forall|i: int, j: int|
            0 <= i < j < bucket(keys, name).len() ==> (#[trigger] bucket(keys, name)[i]) < (
            #[trigger] bucket(keys, name)[j]),
    decreases keys.len(),
{
    if keys.len() > 0 {
        lemma_bucket(keys.drop_last(), name);
        lemma_bucket_increases(keys.drop_last(), name);
    }
}

/// A bucket of keys that stand twice holds each position twice, once for each time.
pub proof fn lemma_bucket_twice(a: Seq<Option<Seq<char>>>, b: Seq<Option<Seq<char>>>, name: Seq<char>)
    ensures
        bucket(a + b, name) == bucket(a, name) + bucket(b, name).map_values(|i: int| i + a.len()),
    decreases b.len(),
{
    let shift = |i: int| i + a.len();
    if b.len() == 0 {
        assert(a + b =~= a);
        assert(bucket(b, name).map_values(shift) =~= Seq::empty());
        assert(bucket(a, name) + Seq::<int>::empty() =~= bucket(a, name));
    } else {
        lemma_bucket_twice(a, b.drop_last(), name);
        assert((a + b).drop_last() =~= a + b.drop_last());
        assert((a + b).last() == b.last());
        let before = bucket(b.drop_last(), name);
        if b.last() == Some(name) {
            assert(before.push(b.len() - 1).map_values(shift) =~= before.map_values(shift).push(
                b.len() - 1 + a.len(),
            ));
            assert(bucket(a + b, name) =~= bucket(a, name) + bucket(b, name).map_values(shift));
        }
    }
}

/// Positions under their keys.
pub struct Buckets {
    slots: StringHashMap<usize>,
    lists: Vec<Vec<usize>>,
    count: usize,
    keys: Ghost<Seq<Option<Seq<char>>>>,
}

impl View for Buckets {
    type V = Seq<Option<Seq<char>>>;

    /// The key of each position, for those that have one.
    closed spec fn view(&self) -> Seq<Option<Seq<char>>> {
        self.keys@
    }
}

impl Buckets {
    closed spec fn found(self, name: Seq<char>) -> Seq<int> {
        if self.slots@.contains_key(name) {
            text::ints(self.lists@[self.slots@[name] as int]@)
        } else {
            Seq::empty()
        }
    }

    pub closed spec fn wf(self) -> bool {
        &&& self.count == self.keys@.len()
        &&& forall|k: Seq<char>| #[trigger]
            self.slots@.contains_key(k) ==> self.slots@[k] < self.lists@.len()
        &&& forall|j: Seq<char>, k: Seq<char>|
            #![trigger self.slots@[j], self.slots@[k]]
            self.slots@.contains_key(j) && self.slots@.contains_key(k) && self.slots@[j] == self.slots@[k]
                ==> j == k
        &&& forall|k: Seq<char>| #[trigger] self.found(k) == bucket(self.keys@, k)
    }

    /// No positions yet.
    pub fn new() -> (r: Self)
        ensures
            r.wf(),
            r@ == Seq::<Option<Seq<char>>>::empty(),
    {
        Buckets { slots: StringHashMap::new(), lists: Vec::new(), count: 0, keys: Ghost(Seq::empty()) }
    }

    /// Adds the next position under `key`, or under none.
    pub fn push(&mut self, key: Option<String>)
        requires
            old(self).wf(),
            old(self)@.len() < usize::MAX,
        ensures
            final(self).wf(),
            final(self)@ == old(self)@.push(seqs::opt_view(key)),
    {
        let ghost before = *self;
        let ghost next = self.keys@.push(seqs::opt_view(key));
        let at = self.count;
        assert(next.drop_last() =~= before.keys@);
        if let Some(k) = key {
            let known = match self.slots.get(&k) {
                Some(s) => Some(*s),
                None => None,
            };
            match known {
                Some(s) => {
                    let ghost old_list = self.lists@[s as int]@;
                    self.lists[s].push(at);
                    assert(text::ints(self.lists@[s as int]@) =~= text::ints(old_list).push(at as int));
                },
                None => {
                    let mut list: Vec<usize> = Vec::new();
                    list.push(at);
                    let s = self.lists.len();
                    assert(text::ints(list@) =~= Seq::<int>::empty().push(at as int));
                    self.lists.push(list);
                    self.slots.insert(k, s);
                },
            }
        }
        self.count = at + 1;
        self.keys = Ghost(next);
        proof {
            assert forall|j: Seq<char>| #[trigger] self.found(j) == bucket(self.keys@, j) by {
                assert(before.found(j) == bucket(before.keys@, j));
                if seqs::opt_view(key) != Some(j) && before.slots@.contains_key(j) {
                    assert(self.slots@.contains_key(j) && self.slots@[j] == before.slots@[j]);
                    assert(self.lists@[self.slots@[j] as int] == before.lists@[before.slots@[j] as int]);
                }
            }
        }
    }

    /// The positions under the key `name`.
    pub fn get(&self, name: &str) -> (r: Vec<usize>)
        requires
            self.wf(),
        ensures
            text::ints(r@) == bucket(self@, name@),
            forall|j: int| 0 <= j < r@.len() ==> (#[trigger] r@[j]) < self@.len(),
    {
        proof {
            assert(self.found(name@) == bucket(self.keys@, name@));
            lemma_bucket(self.keys@, name@);
        }
        let mut out: Vec<usize> = Vec::new();
        if let Some(s) = self.slots.get(name) {
            let list = &self.lists[*s];
            let mut k: usize = 0;
            while k < list.len()
                invariant
                    k <= list@.len(),
                    out@ == list@.take(k as int),
                decreases list@.len() - k,
            {
                out.push(list[k]);
                k += 1;
            }
            assert(list@.take(k as int) =~= list@);
        } else {
            assert(text::ints(out@) =~= Seq::<int>::empty());
        }
        assert forall|j: int| 0 <= j < out@.len() implies (#[trigger] out@[j]) < self@.len() by {
            assert(text::ints(out@)[j] == bucket(self.keys@, name@)[j]);
        }
        out
    }
}

} // verus!
