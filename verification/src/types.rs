//! What is known of the types of variables: a map from names to class names.

use vstd::hash_map::StringHashMap;
use vstd::prelude::*;

use crate::seqs;

verus! {

/// The class of a name, where it is known.
pub open spec fn known(m: Map<Seq<char>, Seq<char>>, name: Seq<char>) -> Option<Seq<char>> {
    if m.contains_key(name) {
        Some(m[name])
    } else {
        None
    }
}

/// `m` with the class of a name, which gives way to one that is known already.
pub open spec fn or_insert(
    m: Map<Seq<char>, Seq<char>>,
    name: Seq<char>,
    class: Seq<char>,
) -> Map<Seq<char>, Seq<char>> {
    if m.contains_key(name) {
        m
    } else {
        m.insert(name, class)
    }
}

/// The innermost of the first `k` maps that knows the class of a name says what
/// it is.
pub open spec fn innermost(
    frames: Seq<Map<Seq<char>, Seq<char>>>,
    k: int,
    name: Seq<char>,
) -> Option<Seq<char>>
    decreases k,
{
    if k <= 0 {
        None
    } else if frames[k - 1].contains_key(name) {
        Some(frames[k - 1][name])
    } else {
        innermost(frames, k - 1, name)
    }
}

/// The classes of names.
pub struct Types {
    classes: StringHashMap<String>,
}

impl View for Types {
    type V = Map<Seq<char>, Seq<char>>;

    closed spec fn view(&self) -> Map<Seq<char>, Seq<char>> {
        self.classes@.map_values(|s: String| s@)
    }
}

impl Types {
    /// Nothing is known.
    pub fn new() -> (r: Self)
        ensures
            r@ == Map::<Seq<char>, Seq<char>>::empty(),
    {
        let r = Types { classes: StringHashMap::new() };
        assert(r@ =~= Map::<Seq<char>, Seq<char>>::empty());
        r
    }

    /// Learns the class of a name.
    pub fn insert(&mut self, name: String, class: String)
        ensures
            final(self)@ == old(self)@.insert(name@, class@),
    {
        let ghost before = self@;
        self.classes.insert(name, class);
        assert(self@ =~= before.insert(name@, class@));
    }

    /// Learns the class of a name that is not known yet.
    pub fn insert_new(&mut self, name: String, class: String)
        ensures
            final(self)@ == or_insert(old(self)@, name@, class@),
    {
        if !self.classes.contains_key(&name) {
            self.insert(name, class);
        }
    }

    /// The class of a name.
    pub fn get(&self, name: &str) -> (r: Option<String>)
        ensures
            seqs::opt_view(r) == known(self@, name@),
    {
        match self.classes.get(name) {
            Some(class) => Some(class.clone()),
            None => None,
        }
    }
}

/// What the innermost map that knows it says of a name.
pub fn look_up(frames: &[Types], name: &str) -> (r: Option<String>)
    ensures
        seqs::opt_view(r) == innermost(seqs::views(frames@), frames@.len() as int, name@),
{
    let ghost all = seqs::views(frames@);
    let mut k: usize = frames.len();
    while k > 0
        invariant
            k <= frames@.len(),
            all == seqs::views(frames@),
            innermost(all, frames@.len() as int, name@) == innermost(all, k as int, name@),
        decreases k,
    {
        assert(all[k - 1] == frames@[k - 1]@);
        let found = frames[k - 1].get(name);
        if found.is_some() {
            return found;
        }
        k -= 1;
    }
    None
}

} // verus!
