use vstd::prelude::*;

verus! {

/// What fxhash's 64-bit hash gives for a string of these characters.
pub uninterp spec fn fx_hash_of(s: Seq<char>) -> u64;

/// Relies on fxhash::hash64, which feeds the string to a fresh unseeded
/// `FxHasher64`: the hash depends on the characters alone.
#[verifier::external_body]
pub(crate) fn fx_hash(s: &str) -> (r: u64)
    ensures
        r == fx_hash_of(s@),
{
    fxhash::hash64(s)
}

/// Handle addresses grouped by the hash of their content, in a map built with
/// fxhash's hasher.
#[verifier::external_body]
pub struct Buckets {
    map: fxhash::FxHashMap<u64, Vec<u64>>,
}

/// The groups that a `Buckets` holds, by hash.
pub uninterp spec fn buckets_of(b: Buckets) -> Map<u64, Seq<u64>>;

impl Buckets {
    /// Relies on HashMap::default: a new map is empty.
    #[verifier::external_body]
    pub(crate) fn new() -> (r: Buckets)
        ensures
            buckets_of(r).dom().is_empty(),
    {
        Buckets { map: fxhash::FxHashMap::default() }
    }

    /// Relies on HashMap::get: the group stored under `k`, if any.
    #[verifier::external_body]
    pub(crate) fn get(&self, k: u64) -> (r: Option<&Vec<u64>>)
        ensures
            match r {
                Some(v) => buckets_of(*self).contains_key(k) && v@ == buckets_of(*self)[k],
                None => !buckets_of(*self).contains_key(k),
            },
    {
        self.map.get(&k)
    }

    /// Relies on HashMap::insert: `k` is mapped to `v` afterwards, and every
    /// other key keeps its group.
    #[verifier::external_body]
    pub(crate) fn insert(&mut self, k: u64, v: Vec<u64>)
        ensures
            buckets_of(*final(self)) == buckets_of(*old(self)).insert(k, v@),
    {
        self.map.insert(k, v);
    }
}

} // verus!
