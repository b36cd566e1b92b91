//! The objects that have been read so far.
use vstd::prelude::*;
use vstd::hash_map::StringHashMap;
use crate::object::{BrassObject, ObjectView};

verus! {

/// What is known of the objects of a repository: for each hash that was looked
/// up, the object of that name, or that none can be read.
pub struct ObjectStore {
    known: StringHashMap<Option<BrassObject>>,
}

/// The object that was read, as a mathematical value.
pub open spec fn answer_view(answer: Option<BrassObject>) -> Option<ObjectView> {
    match answer {
        Some(o) => Some(o@),
        None => None,
    }
}

/// Whether `m` is finite and says all that `known` says.
pub open spec fn extends(
    m: Map<Seq<char>, Option<ObjectView>>,
    known: Map<Seq<char>, Option<ObjectView>>,
) -> bool {
    m.dom().finite() && known.submap_of(m)
}

impl View for ObjectStore {
    type V = Map<Seq<char>, Option<ObjectView>>;

    closed spec fn view(&self) -> Map<Seq<char>, Option<ObjectView>> {
        self.known@.map_values(|a: Option<BrassObject>| answer_view(a))
    }
}

impl ObjectStore {
    #[verifier::type_invariant]
    spec fn is_finite(&self) -> bool {
        self.known@.dom().finite()
    }

    /// Nothing was looked up yet.
    pub fn new() -> (r: ObjectStore)
        ensures
            r@ == Map::<Seq<char>, Option<ObjectView>>::empty(),
    {
        let r = ObjectStore { known: StringHashMap::new() };
        assert(r@ =~= Map::<Seq<char>, Option<ObjectView>>::empty());
        r
    }

    /// Takes in what was found under a hash.
    pub fn insert(&mut self, hash: String, answer: Option<BrassObject>)
        ensures
            final(self)@ == old(self)@.insert(hash@, answer_view(answer)),
    {
        proof {
            use_type_invariant(&*self);
        }
        let mut known = StringHashMap::new();
        std::mem::swap(&mut known, &mut self.known);
        known.insert(hash, answer);
        self.known = known;
        assert(self@ =~= old(self)@.insert(hash@, answer_view(answer)));
    }

    /// What is known of a hash, if it was looked up.
    pub fn get(&self, hash: &str) -> (r: Option<&Option<BrassObject>>)
        ensures
            match r {
                Some(answer) => self@.contains_key(hash@) && self@[hash@] == answer_view(*answer),
                None => !self@.contains_key(hash@),
            },
    {
        self.known.get(hash)
    }

    /// Only finitely many hashes were looked up. The call does nothing: it
    /// brings the fact to the caller's proof.
    pub(crate) fn finite(&self)
        ensures
            self@.dom().finite(),
            extends(self@, self@),
    {
        proof {
            use_type_invariant(self);
            assert(self@.dom() =~= self.known@.dom());
        }
    }
}

} // verus!
