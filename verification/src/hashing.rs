//! What a map asks of its keys: equality, lookup by equivalent values, and a
//! hash.

use core::hash::{BuildHasher, Hasher};

use vstd::prelude::*;
use vstd::std_specs::cmp::*;

verus! {

/// Lookup by a value that stands for a key.
///
/// An implementor must hash like the keys that it is equivalent to.
pub trait Equivalent<K> {
    /// Whether [`Equivalent::equivalent`] answers by [`Equivalent::stands_for`].
    spec fn obeys() -> bool;

    /// Whether this value stands for `key`.
    spec fn stands_for(&self, key: K) -> bool;

    /// Compares this value with a key.
    fn equivalent(&self, key: &K) -> (result: bool)
        requires
            Self::obeys(),
        ensures
            result == self.stands_for(*key),
    ;
}

/// Builds the hash of a key.
pub trait HashBuilder<Q> {
    /// The hash of `key`.
    spec fn hash_of(&self, key: Q) -> u64;

    /// Hashes a key; repeated calls give the same hash.
    fn hash_one(&self, key: &Q) -> (result: u64)
        ensures
            result == self.hash_of(*key),
    ;
}

/// Calls `equivalent::Equivalent::equivalent` on two keys, whose blanket
/// implementation for a type and itself is the type's own `==`.
#[verifier::external_body]
fn equivalent_keys<K: Eq>(left: &K, right: &K) -> (result: bool)
    ensures
        K::obeys_eq_spec() ==> result == left.eq_spec(right),
{
    equivalent::Equivalent::equivalent(left, right)
}

/// A key stands for the keys that it equals.
impl<K: Eq> Equivalent<K> for K {
    open spec fn obeys() -> bool {
        K::obeys_eq_spec()
    }

    open spec fn stands_for(&self, key: K) -> bool {
        self.eq_spec(&key)
    }

    fn equivalent(&self, key: &K) -> (result: bool) {
        equivalent_keys(self, key)
    }
}

/// Calls `equivalent::Equivalent::equivalent` on a string slice and a string, whose
/// blanket implementation compares the slice with the string borrowed as one: they are
/// equivalent if they hold the same characters.
#[verifier::external_body]
fn equivalent_text(text: &str, key: &String) -> (result: bool)
    ensures
        result == (text@ == key@),
{
    equivalent::Equivalent::equivalent(text, key)
}

/// A string slice stands for the strings of its characters.
impl<'a> Equivalent<String> for &'a str {
    open spec fn obeys() -> bool {
        true
    }

    open spec fn stands_for(&self, key: String) -> bool {
        self@ == key@
    }

    fn equivalent(&self, key: &String) -> (result: bool) {
        equivalent_text(*self, key)
    }
}

/// Whether two keys are equal.
pub open spec fn same_key<K: Eq>(left: K, right: K) -> bool {
    left.eq_spec(&right)
}

/// Key equality is an equivalence relation.
pub open spec fn lawful_keys<K: Eq>() -> bool {
    &&& K::obeys_eq_spec()
    &&& forall|key: K| #[trigger] same_key(key, key)
    &&& forall|left: K, right: K| #[trigger] same_key(left, right) ==> same_key(right, left)
    &&& forall|left: K, middle: K, right: K| #[trigger]
        same_key(left, middle) && #[trigger] same_key(middle, right) ==> same_key(left, right)
}

/// Equal keys have equal hashes.
pub open spec fn lawful_hashing<K: Eq, S: HashBuilder<K>>(builder: S) -> bool {
    forall|left: K, right: K| #[trigger]
        same_key(left, right) ==> builder.hash_of(left) == builder.hash_of(right)
}

/// A lookup value stands for keys of one class, all of them, and hashes like them.
pub open spec fn lawful_query<K: Eq, Q: Equivalent<K>, S: HashBuilder<K> + HashBuilder<Q>>(
    builder: S,
    query: Q,
) -> bool {
    &&& Q::obeys()
    &&& forall|left: K, right: K|
        (#[trigger] query.stands_for(left) && #[trigger] query.stands_for(right)) ==> same_key(
            left,
            right,
        )
    &&& forall|left: K, right: K|
        (#[trigger] query.stands_for(left) && #[trigger] same_key(left, right))
            ==> query.stands_for(right)
    &&& forall|key: K| #[trigger]
        query.stands_for(key) ==> HashBuilder::<Q>::hash_of(&builder, query) == HashBuilder::<
            K,
        >::hash_of(&builder, key)
}

/// A key is a lawful lookup value for its own type.
pub proof fn law_keys_are_lawful_queries<K: Eq, S: HashBuilder<K>>(builder: S, key: K)
    requires
        lawful_keys::<K>(),
        lawful_hashing::<K, S>(builder),
    ensures
        lawful_query::<K, K, S>(builder, key),
{
    assert forall|left: K, right: K|
        (#[trigger] key.stands_for(left) && #[trigger] key.stands_for(right)) implies same_key(
        left,
        right,
    ) by {
        assert(same_key(key, left) && same_key(key, right));
        assert(same_key(left, key));
    }
    assert forall|left: K, right: K|
        (#[trigger] key.stands_for(left) && #[trigger] same_key(
            left,
            right,
        )) implies key.stands_for(right) by {
        assert(same_key(key, left));
    }
    assert forall|other: K| #[trigger] key.stands_for(other) implies builder.hash_of(key)
        == builder.hash_of(other) by {
        assert(same_key(key, other));
    }
}

/// The hash that `foldhash`'s fast hasher, started from a per-hasher seed over
/// its fixed shared seed, gives a `u64`. Which of its two multiplications is
/// behind it is settled when the crate is compiled; it depends on nothing else
/// but the two arguments.
pub uninterp spec fn fold_hash(seed: u64, key: u64) -> u64;

/// The hash that `foldhash`'s fast hasher, started in the same way, gives a
/// string.
pub uninterp spec fn fold_hash_text(seed: u64, text: Seq<char>) -> u64;

/// A fresh per-hasher seed: `foldhash::fast::RandomState` draws one, and a
/// hasher that has read nothing finishes with it. Nothing is known of it.
#[verifier::external_body]
fn fresh_seed() -> (result: u64) {
    foldhash::fast::RandomState::default().build_hasher().finish()
}

/// Hashes a `u64` with `foldhash::fast::FixedState::with_seed(seed)`.
#[verifier::external_body]
fn fold_hash_one(seed: u64, key: u64) -> (result: u64)
    ensures
        result == fold_hash(seed, key),
{
    foldhash::fast::FixedState::with_seed(seed).hash_one(key)
}

/// Hashes a string with `foldhash::fast::FixedState::with_seed(seed)`.
#[verifier::external_body]
fn fold_hash_str(seed: u64, text: &str) -> (result: u64)
    ensures
        result == fold_hash_text(seed, text@),
{
    foldhash::fast::FixedState::with_seed(seed).hash_one(text)
}

/// Default hash builder of the maps: `foldhash` from a random seed.
#[derive(Clone, Copy, Debug)]
pub struct DefaultHashBuilder {
    seed: u64,
}

impl DefaultHashBuilder {
    /// The seed.
    pub closed spec fn seed(self) -> u64 {
        self.seed
    }

    /// A builder with a given seed, for reproducible hashes.
    pub fn with_seed(seed: u64) -> (result: Self)
        ensures
            result.seed() == seed,
    {
        DefaultHashBuilder { seed }
    }
}

/// A builder with a fresh seed.
impl Default for DefaultHashBuilder {
    fn default() -> (result: Self) {
        DefaultHashBuilder { seed: fresh_seed() }
    }
}

impl HashBuilder<u64> for DefaultHashBuilder {
    open spec fn hash_of(&self, key: u64) -> u64 {
        fold_hash(self.seed(), key)
    }

    fn hash_one(&self, key: &u64) -> (result: u64) {
        fold_hash_one(self.seed, *key)
    }
}

/// An integer hashes like the `u64` of its value.
impl HashBuilder<u32> for DefaultHashBuilder {
    open spec fn hash_of(&self, key: u32) -> u64 {
        fold_hash(self.seed(), key as u64)
    }

    fn hash_one(&self, key: &u32) -> (result: u64) {
        fold_hash_one(self.seed, *key as u64)
    }
}

/// An integer hashes like the `u64` of its value.
impl HashBuilder<usize> for DefaultHashBuilder {
    open spec fn hash_of(&self, key: usize) -> u64 {
        fold_hash(self.seed(), key as u64)
    }

    fn hash_one(&self, key: &usize) -> (result: u64) {
        fold_hash_one(self.seed, *key as u64)
    }
}

/// An integer hashes like the `u64` of its two's-complement bits.
impl HashBuilder<i64> for DefaultHashBuilder {
    open spec fn hash_of(&self, key: i64) -> u64 {
        fold_hash(self.seed(), key as u64)
    }

    fn hash_one(&self, key: &i64) -> (result: u64) {
        fold_hash_one(self.seed, *key as u64)
    }
}

/// An integer hashes like the `u64` of its two's-complement bits.
impl HashBuilder<i32> for DefaultHashBuilder {
    open spec fn hash_of(&self, key: i32) -> u64 {
        fold_hash(self.seed(), key as u32 as u64)
    }

    fn hash_one(&self, key: &i32) -> (result: u64) {
        fold_hash_one(self.seed, *key as u32 as u64)
    }
}

/// A string hashes by its characters.
///
/// Of the `==` of strings only the result of a call is specified, so
/// [`lawful_keys`] is not provable of a string type itself. A caller who proves
/// its requirements keys the map by a type of its own around a string, which
/// says what its `==` means and hashes as the string does.
impl<'a> HashBuilder<&'a str> for DefaultHashBuilder {
    open spec fn hash_of(&self, key: &'a str) -> u64 {
        fold_hash_text(self.seed(), key@)
    }

    fn hash_one(&self, key: &&'a str) -> (result: u64) {
        fold_hash_str(self.seed, *key)
    }
}

/// A string hashes by its characters.
impl HashBuilder<String> for DefaultHashBuilder {
    open spec fn hash_of(&self, key: String) -> u64 {
        fold_hash_text(self.seed(), key@)
    }

    fn hash_one(&self, key: &String) -> (result: u64) {
        fold_hash_str(self.seed, key.as_str())
    }
}

/// The default builder gives integers the hash that `foldhash` gives the number as a
/// 64-bit word, a string that of its characters, and both from its seed.
pub proof fn law_default_hashes_are_those_of_the_seed(builder: DefaultHashBuilder, word: u64)
    ensures
        HashBuilder::<u64>::hash_of(&builder, word) == fold_hash(builder.seed(), word),
        forall|key: u32| #[trigger]
            HashBuilder::<u32>::hash_of(&builder, key) == HashBuilder::<u64>::hash_of(
                &builder,
                key as u64,
            ),
        forall|key: usize| #[trigger]
            HashBuilder::<usize>::hash_of(&builder, key) == HashBuilder::<u64>::hash_of(
                &builder,
                key as u64,
            ),
        forall|key: i64| #[trigger]
            HashBuilder::<i64>::hash_of(&builder, key) == HashBuilder::<u64>::hash_of(
                &builder,
                key as u64,
            ),
        forall|key: i32| #[trigger]
            HashBuilder::<i32>::hash_of(&builder, key) == HashBuilder::<u64>::hash_of(
                &builder,
                key as u32 as u64,
            ),
        forall|text: &str, key: String|
            text@ == key@ ==> #[trigger] HashBuilder::<&str>::hash_of(&builder, text)
                == #[trigger] HashBuilder::<String>::hash_of(&builder, key),
        forall|key: String| #[trigger]
            HashBuilder::<String>::hash_of(&builder, key) == fold_hash_text(builder.seed(), key@),
{
}

} // verus!
