use std::collections::hash_map::DefaultHasher;
use std::hash::Hasher;
use vstd::prelude::*;
use vstd::std_specs::hash::DefaultHasherAdditionalSpecFns;

verus! {

/// The capability a key type gives the table: a hash and an equality that
/// agree with each other.
///
/// Equality is modelled by `key_id`: two keys are the same key exactly when
/// their identities are equal, and the hash depends on the identity alone.
/// A verified implementation gives its own definitions of the two spec
/// functions; the defaults carry no information.
pub trait TableKey: Sized {
    /// What equality of keys compares.
    type Id;

    /// The identity of this key.
    open spec fn key_id(&self) -> Self::Id {
        arbitrary()
    }

    /// The hash of every key with identity `id`.
    open spec fn hash_of_id(id: Self::Id) -> u64 {
        arbitrary()
    }

    fn hash_code(&self) -> (r: u64)
        ensures
            r == Self::hash_of_id(self.key_id()),
    ;

    fn same_key(&self, other: &Self) -> (r: bool)
        ensures
            r == (self.key_id() == other.key_id()),
    ;
}

/// The writes that hashing a string makes into a hasher.
pub uninterp spec fn str_hash_writes(s: Seq<char>) -> Seq<Seq<u8>>;

/// Relies on std's `<String as Hash>::hash`: the writes it makes into the
/// hasher depend on the characters of the string alone.
#[verifier::external_body]
fn feed_str(s: &String, state: &mut DefaultHasher)
    ensures
        final(state)@ == old(state)@ + str_hash_writes(s@),
{
    std::hash::Hash::hash(s, state)
}

impl TableKey for String {
    type Id = Seq<char>;

    open spec fn key_id(&self) -> Seq<char> {
        self@
    }

    open spec fn hash_of_id(id: Seq<char>) -> u64 {
        DefaultHasher::spec_finish(str_hash_writes(id))
    }

    fn hash_code(&self) -> (r: u64) {
        let mut state = DefaultHasher::new();
        feed_str(self, &mut state);
        proof {
            assert(state@ =~= str_hash_writes(self@));
        }
        state.finish()
    }

    fn same_key(&self, other: &Self) -> (r: bool) {
        *self == *other
    }
}

} // verus!
