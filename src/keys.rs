use vstd::prelude::*;

verus! {

/// The keys met so far in one mapping, held in hashbrown's hash set.
#[verifier::external_body]
pub struct KeySet {
    set: hashbrown::HashSet<String>,
}

/// The keys that a [`KeySet`] holds, as character sequences.
pub uninterp spec fn key_set_contents(s: KeySet) -> Set<Seq<char>>;

impl KeySet {
    /// Relies on `hashbrown::HashSet::new`: a new set holds no key.
    #[verifier::external_body]
    pub(crate) fn new() -> (r: KeySet)
        ensures
            key_set_contents(r) == Set::<Seq<char>>::empty(),
    {
        KeySet { set: hashbrown::HashSet::new() }
    }

    /// Relies on `hashbrown::HashSet::insert`: afterwards the set holds `key`, and the
    /// result tells whether it was absent before.
    #[verifier::external_body]
    pub(crate) fn insert(&mut self, key: String) -> (fresh: bool)
        ensures
            fresh == !key_set_contents(*old(self)).contains(key@),
            key_set_contents(*final(self)) == key_set_contents(*old(self)).insert(key@),
    {
        self.set.insert(key)
    }
}

} // verus!
