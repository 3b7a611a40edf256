//! An index over a list by a hash of its items.
//!
//! The places of a list are grouped by the hash of the item they hold, so
//! that an item is looked for among the few places that share its hash.
//! Whether two items are the same is decided by comparing them: the hash
//! only says where to look.
use std::collections::HashMap;
use vstd::prelude::*;
use vstd::utf8::encode_utf8;

verus! {

/// The places among the first `n` whose key is `hash`, in increasing order.
pub open spec fn grouped(keys: Seq<u64>, hash: u64, n: nat) -> Seq<usize>
    decreases n,
{
    if n == 0 {
        Seq::empty()
    } else if keys[n - 1] == hash {
        grouped(keys, hash, (n - 1) as nat).push((n - 1) as usize)
    } else {
        grouped(keys, hash, (n - 1) as nat)
    }
}

/// A group holds the places of its key and no others, each once, in
/// increasing order.
pub proof fn lemma_grouped(keys: Seq<u64>, hash: u64, n: nat)
    requires
        n <= keys.len() <= usize::MAX,
    ensures
        forall|at: int|
            0 <= at < grouped(keys, hash, n).len() ==> {
                &&& (#[trigger] grouped(keys, hash, n)[at]) < n
                &&& keys[grouped(keys, hash, n)[at] as int] == hash
            },
        forall|at: int, later: int|
            0 <= at < later < grouped(keys, hash, n).len() ==> grouped(keys, hash, n)[at]
                < grouped(keys, hash, n)[later],
        forall|place: int|
            0 <= place < n && #[trigger] keys[place] == hash ==> grouped(keys, hash, n).contains(
                place as usize,
            ),
    decreases n,
{
    if n > 0 {
        let before = grouped(keys, hash, (n - 1) as nat);
        let after = grouped(keys, hash, n);
        lemma_grouped(keys, hash, (n - 1) as nat);
        assert forall|place: int|
            0 <= place < n && #[trigger] keys[place] == hash implies after.contains(
            place as usize,
        ) by {
            if place < n - 1 {
                let at = choose|at: int| 0 <= at < before.len() && before[at] == place as usize;
                assert(after[at] == place as usize);
            } else {
                assert(after[after.len() - 1] == place as usize);
            }
        }
    }
}

/// The hash of an empty list.
pub const SEED: u64 = 0xcbf2_9ce4_8422_2325;

/// What a hash is multiplied by after each item.
pub const FACTOR: u64 = 0x100_0000_01b3;

/// The hash of the first `n` of `bytes`.
pub open spec fn mix_bytes(bytes: Seq<u8>, n: nat) -> u64
    decreases n,
{
    if n == 0 {
        SEED
    } else {
        (mix_bytes(bytes, (n - 1) as nat) ^ (bytes[n - 1] as u64)).wrapping_mul(FACTOR)
    }
}

/// The hash of the first `n` of `numbers`.
pub open spec fn mix_numbers(numbers: Seq<usize>, n: nat) -> u64
    decreases n,
{
    if n == 0 {
        SEED
    } else {
        (mix_numbers(numbers, (n - 1) as nat) ^ (numbers[n - 1] as u64)).wrapping_mul(FACTOR)
    }
}

/// The hash of a name.
pub open spec fn name_hash(name: Seq<char>) -> u64 {
    mix_bytes(encode_utf8(name), encode_utf8(name).len())
}

/// The hash of a list of numbers.
pub open spec fn list_hash(numbers: Seq<usize>) -> u64 {
    mix_numbers(numbers, numbers.len())
}

/// The hash of a name.
pub fn hash_name(name: &str) -> (hash: u64)
    ensures
        hash == name_hash(name@),
{
    let bytes = name.as_bytes();
    let mut hash: u64 = SEED;
    let mut i: usize = 0;
    while i < bytes.len()
        invariant
            i <= bytes.len(),
            bytes@ == encode_utf8(name@),
            hash == mix_bytes(bytes@, i as nat),
        decreases bytes.len() - i,
    {
        hash = (hash ^ (bytes[i] as u64)).wrapping_mul(FACTOR);
        i = i + 1;
    }
    hash
}

/// The hash of a list of numbers.
pub fn hash_list(numbers: &Vec<usize>) -> (hash: u64)
    ensures
        hash == list_hash(numbers@),
{
    let mut hash: u64 = SEED;
    let mut i: usize = 0;
    while i < numbers.len()
        invariant
            i <= numbers.len(),
            hash == mix_numbers(numbers@, i as nat),
        decreases numbers.len() - i,
    {
        hash = (hash ^ (numbers[i] as u64)).wrapping_mul(FACTOR);
        i = i + 1;
    }
    hash
}

/// A group depends on the keys of its places alone.
pub proof fn lemma_grouped_prefix(longer: Seq<u64>, shorter: Seq<u64>, hash: u64, n: nat)
    requires
        n <= shorter.len() <= longer.len(),
        forall|i: int| 0 <= i < shorter.len() ==> longer[i] == shorter[i],
    ensures
        grouped(longer, hash, n) == grouped(shorter, hash, n),
    decreases n,
{
    if n > 0 {
        lemma_grouped_prefix(longer, shorter, hash, (n - 1) as nat);
    }
}

/// The places of a list, grouped by the hash of what they hold.
pub struct Buckets {
    groups: HashMap<u64, Vec<usize>>,
    count: usize,
    keys: Ghost<Seq<u64>>,
}

impl Buckets {
    /// The hashes of the items of the list, by place.
    pub closed spec fn keys(&self) -> Seq<u64> {
        self.keys@
    }

    /// The places that the index holds for `hash`.
    pub closed spec fn places(&self, hash: u64) -> Seq<usize> {
        if self.groups@.contains_key(hash) {
            self.groups@[hash]@
        } else {
            Seq::empty()
        }
    }

    /// The index holds each place of the list under the hash of its item.
    pub closed spec fn wf(&self) -> bool {
        &&& self.count == self.keys@.len()
        &&& forall|hash: u64| #[trigger]
            self.places(hash) == grouped(self.keys@, hash, self.keys@.len())
    }

    /// The index of the empty list.
    pub fn new() -> (index: Self)
        ensures
            index.wf(),
            index.keys() == Seq::<u64>::empty(),
    {
        Buckets { groups: HashMap::new(), count: 0, keys: Ghost(Seq::empty()) }
    }

    /// Takes the next place of the list into the index, under `hash`.
    pub fn add(&mut self, hash: u64)
        requires
            old(self).wf(),
            old(self).keys().len() < usize::MAX,
        ensures
            final(self).wf(),
            final(self).keys() == old(self).keys().push(hash),
    {
        let ghost before = self.keys@;
        let ghost after = before.push(hash);
        let mut group = match self.groups.remove(&hash) {
            Some(group) => group,
            None => Vec::new(),
        };
        assert(group@ == old(self).places(hash));
        group.push(self.count);
        self.groups.insert(hash, group);
        self.count = self.count + 1;
        self.keys = Ghost(after);
        proof {
            assert forall|other: u64| #[trigger]
                self.places(other) == grouped(after, other, after.len()) by {
                assert(old(self).places(other) == grouped(before, other, before.len()));
                lemma_grouped_prefix(after, before, other, before.len());
            }
        }
    }

    /// The places that hold an item with the hash `hash`, in increasing
    /// order.
    pub fn candidates(&self, hash: u64) -> (found: Option<&Vec<usize>>)
        requires
            self.wf(),
        ensures
            match found {
                Some(group) => group@ == grouped(self.keys(), hash, self.keys().len()),
                None => grouped(self.keys(), hash, self.keys().len()).len() == 0,
            },
    {
        assert(self.places(hash) == grouped(self.keys@, hash, self.keys@.len()));
        self.groups.get(&hash)
    }
}

} // verus!
